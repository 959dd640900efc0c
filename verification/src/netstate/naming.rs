//! Names on the virtual network: ports, `bind`, `listen`, `connect` and
//! `accept`.

use vstd::prelude::*;
use super::{
    loopback, Addr, HostView, Net, NetError, NetView, SockView,
    FAMILY_INET, FIRST_EPHEMERAL, KIND_DGRAM, LOOPBACK, MAX_SOCKETS, S_BOUND, S_CONNECTED, S_FREE,
    S_LISTENING, S_NEW,
};
use crate::errno::Errno;
use crate::netstate;

verus! {

/// The name is taken by bound and listening sockets, not by the
/// connections a listener accepted on the same port.
pub open spec fn taken(socks: Seq<SockView>, host: u32, kind: u8, addr: Addr) -> bool {
    exists|i: int| 0 <= i < socks.len() && holds(#[trigger] socks[i], host, kind, addr)
}

pub open spec fn holds(s: SockView, host: u32, kind: u8, addr: Addr) -> bool {
    &&& s.state == S_BOUND || s.state == S_LISTENING
    &&& s.host == host
    &&& s.kind == kind
    &&& s.local.names_same(addr)
}

/// The `k`th port from where a host's search is, around and around
pub open spec fn port_after(next: u16, k: int) -> u16 {
    (FIRST_EPHEMERAL + (next - FIRST_EPHEMERAL + k) % 16384) as u16
}

/// The first of the ports, from the `k`th on, that is not taken
pub open spec fn free_port(
    socks: Seq<SockView>,
    next: u16,
    host: u32,
    kind: u8,
    k: int,
) -> Option<int>
    decreases 16384 - k,
{
    if k < 0 || k >= 16384 {
        None
    } else if !taken(socks, host, kind, Addr::inet_name(0, port_after(next, k))) {
        Some(k)
    } else {
        free_port(socks, next, host, kind, k + 1)
    }
}

/// The socket takes connections of that kind to `dest` on `dest_host`.
pub open spec fn listens(
    l: SockView,
    kind: u8,
    family: u8,
    dest_host: u32,
    dest: Addr,
) -> bool {
    &&& l.state == S_LISTENING
    &&& l.host == dest_host
    &&& l.kind == kind
    &&& l.local.names_same(dest)
    &&& family != FAMILY_INET || l.local.ip == 0 || (netstate::is_loopback(l.local.ip) && netstate::is_loopback(
        dest.ip,
    )) || l.local.ip == dest.ip
}

/// The first that does, from number `i` on
pub open spec fn listener_from(
    socks: Seq<SockView>,
    i: int,
    kind: u8,
    family: u8,
    dest_host: u32,
    dest: Addr,
) -> Option<int>
    decreases socks.len() - i,
{
    if i < 0 || i >= socks.len() {
        None
    } else if listens(socks[i], kind, family, dest_host, dest) {
        Some(i)
    } else {
        listener_from(socks, i + 1, kind, family, dest_host, dest)
    }
}

impl HostView {
    /// With its search for ports moved on by `k`
    pub open spec fn searched(self, k: int) -> HostView {
        HostView { next_port: port_after(self.next_port, k), ..self }
    }
}

impl NetView {
    /// After a search for a port that none has, and the port
    pub open spec fn with_port(self, host: u32, kind: u8) -> (NetView, Option<u16>) {
        let h = self.hosts[host as int];
        match free_port(self.socks, h.next_port, host, kind, 0) {
            Some(k) => (
                NetView { hosts: self.hosts.update(host as int, h.searched(k + 1)), ..self },
                Some(port_after(h.next_port, k)),
            ),
            None => (self, None),
        }
    }

    /// `bind`: a socket that has no name gets one.
    pub open spec fn bound(self, sock: int, addr: Addr) -> (NetView, Result<(), NetError>) {
        let s = self.socks[sock];
        if s.state != S_NEW {
            (self, netstate::failed(Errno::Inval))
        } else if addr.family != s.family {
            (self, netstate::failed(Errno::AfNoSupport))
        } else if s.family == FAMILY_INET && addr.ip != 0 && !netstate::is_loopback(addr.ip) && addr.ip
            != self.hosts[s.host as int].addr {
            (self, netstate::failed(Errno::AddrNotAvail))
        } else {
            let (net, port) = if s.family == FAMILY_INET && addr.port == 0 {
                self.with_port(s.host, s.kind)
            } else {
                (self, Some(addr.port))
            };
            match port {
                None => (net, netstate::failed(Errno::AddrInUse)),
                Some(port) => {
                    let name = Addr { port, ..addr };
                    if taken(net.socks, s.host, s.kind, name) {
                        (net, netstate::failed(Errno::AddrInUse))
                    } else {
                        (
                            net.with_sock(sock, SockView { local: name, state: S_BOUND, ..s }),
                            Ok(()),
                        )
                    }
                },
            }
        }
    }

    /// `listen`: a bound socket takes connections; one without a name is
    /// bound first.
    pub open spec fn listening(self, sock: int, backlog: i32) -> (NetView, Result<(), NetError>) {
        let (net, r) = if self.socks[sock].state != S_NEW {
            (self, Ok(()))
        } else if self.socks[sock].family != FAMILY_INET {
            (self, netstate::failed(Errno::DestAddrReq))
        } else {
            self.bound(sock, Addr::inet_name(0, 0))
        };
        let s = net.socks[sock];
        match r {
            Err(e) => (net, Err(e)),
            Ok(_) => if s.state != S_BOUND && s.state != S_LISTENING {
                (net, netstate::failed(Errno::Inval))
            } else {
                let most = if backlog < 1 {
                    1
                } else if backlog > 32 {
                    32
                } else {
                    backlog as u32
                };
                (
                    net.with_sock(sock, SockView { state: S_LISTENING, backlog_max: most, ..s }),
                    Ok(()),
                )
            },
        }
    }

    /// With `sock` joined to `far`, and that queued on the listener `l`
    pub open spec fn attached(self, sock: int, l: int, far: u32, far_local: Addr) -> NetView {
        let net = self.with_sock(
            sock,
            SockView {
                state: S_CONNECTED,
                peer: far_local,
                far_end: far,
                ..self.socks[sock]
            },
        );
        NetView {
            connections: self.connections.wrapping_add(1),
            ..net.with_sock(
                l,
                SockView { backlog: net.socks[l].backlog.push(far), ..net.socks[l] },
            )
        }
    }

    /// With a connection of `sock` to the listener `l`, whose far end is
    /// the new socket `far`
    pub open spec fn joined(
        self,
        sock: int,
        l: int,
        far: int,
        dest_host: u32,
        dest: Addr,
    ) -> NetView {
        let s = self.socks[sock];
        let local = if s.family == FAMILY_INET {
            Addr { ip: dest.ip, ..self.socks[l].local }
        } else {
            self.socks[l].local
        };
        let made = self.with_new(far, dest_host, s.family, s.kind);
        made.with_sock(
            far,
            SockView {
                state: S_CONNECTED,
                pending: true,
                local,
                peer: s.local,
                far_end: sock as u32,
                ..made.socks[far]
            },
        ).attached(sock, l, far as u32, local)
    }

    /// With a name for a socket that connects without one
    pub open spec fn named_to_connect(self, sock: int, dest: Addr) -> Option<NetView> {
        let s = self.socks[sock];
        if s.state == S_NEW && s.family == FAMILY_INET {
            let (net, port) = self.with_port(s.host, s.kind);
            let ip = if netstate::is_loopback(dest.ip) {
                LOOPBACK
            } else {
                self.hosts[s.host as int].addr
            };
            match port {
                Some(port) => Some(
                    net.with_sock(sock, SockView { local: Addr::inet_name(ip, port), ..s }),
                ),
                None => None,
            }
        } else {
            Some(self)
        }
    }

    /// A connection of `sock` would not join datagram sockets.
    pub open spec fn no_datagram_listens(self, sock: int, dest_host: u32, dest: Addr) -> bool {
        let s = self.socks[sock];
        s.kind == KIND_DGRAM ==> listener_from(
            self.socks,
            0,
            s.kind,
            s.family,
            dest_host,
            dest,
        ) is None
    }

    /// `connect`: the connection is complete once it is queued on the
    /// listener.
    pub open spec fn connected(self, sock: int, dest_host: u32, dest: Addr) -> (
        NetView,
        Result<(), NetError>,
    ) {
        let s = self.socks[sock];
        if s.state == S_CONNECTED {
            (self, netstate::failed(Errno::IsConn))
        } else if s.state != S_NEW && s.state != S_BOUND {
            (self, netstate::failed(Errno::Inval))
        } else {
            match listener_from(self.socks, 0, s.kind, s.family, dest_host, dest) {
                None => (self, netstate::failed(Errno::ConnRefused)),
                Some(l) => if self.socks[l].backlog.len() >= self.socks[l].backlog_max {
                    (self, netstate::failed(Errno::ConnRefused))
                } else {
                    match self.named_to_connect(sock, dest) {
                        None => (self, netstate::failed(Errno::AddrInUse)),
                        Some(net) => match netstate::free_from(net.socks, 0) {
                            None => (net, netstate::failed(Errno::NFile)),
                            Some(far) => (net.joined(sock, l, far, dest_host, dest), Ok(())),
                        },
                    }
                },
            }
        }
    }

    /// `accept`: the oldest queued connection of a listener
    pub open spec fn accepted(self, listener: int) -> (NetView, Result<u32, NetError>) {
        let l = self.socks[listener];
        if l.state != S_LISTENING {
            (self, netstate::failed(Errno::Inval))
        } else if l.backlog.len() == 0 {
            (self, Err(NetError::WouldBlock))
        } else {
            let far = l.backlog[0];
            let net = self.with_sock(listener, SockView { backlog: l.backlog.skip(1), ..l });
            (
                net.with_sock(far as int, SockView { pending: false, ..net.socks[far as int] }),
                Ok(far),
            )
        }
    }
}

/// The first free record is free.
proof fn lemma_free_from(socks: Seq<SockView>, i: int)
    requires
        0 <= i,
    ensures
        netstate::free_from(socks, i) matches Some(k) ==> i <= k < socks.len() && socks[k].state == S_FREE,
    decreases socks.len() - i,
{
    if i < socks.len() && socks[i].state != S_FREE {
        lemma_free_from(socks, i + 1);
    }
}

impl Net {
    fn name_taken(&self, host: u32, kind: u8, addr: &Addr) -> (r: bool)
        requires
            self.wf(),
            addr.wf(),
        ensures
            r == taken(self@.socks, host, kind, *addr),
    {
        let mut i: usize = 0;
        proof {
            netstate::lemma_at(*self, 0);
        }
        while i < MAX_SOCKETS
            invariant
                self.wf(),
                addr.wf(),
                i <= MAX_SOCKETS,
                self@.socks.len() == MAX_SOCKETS,
                forall|k: int| 0 <= k < i ==> !holds(#[trigger] self@.socks[k], host, kind, *addr),
            decreases MAX_SOCKETS - i,
        {
            proof {
                netstate::lemma_at(*self, i as int);
            }
            let s = &self.socks[i];
            if (s.state == S_BOUND || s.state == S_LISTENING) && s.host == host && s.kind == kind
                && s.local.same_name(addr) {
                assert(holds(self@.socks[i as int], host, kind, *addr));
                return true;
            }
            i += 1;
        }
        false
    }

    /// Move a host's search for ports on by one.
    fn next_port(&mut self, host: u32) -> (r: u16)
        requires
            old(self).wf(),
            host < old(self)@.hosts.len(),
        ensures
            final(self).wf(),
            r == old(self)@.hosts[host as int].next_port,
            r >= FIRST_EPHEMERAL,
            final(self)@ == (NetView {
                hosts: old(self)@.hosts.update(
                    host as int,
                    old(self)@.hosts[host as int].searched(1),
                ),
                ..old(self)@
            }),
    {
        reveal(Net::wf);
        let h: usize = host as usize;
        assert(self@.hosts[host as int] == self.hosts@[host as int]@);
        let port: u16 = self.hosts[h].next_port;
        self.hosts[h].next_port = if port == u16::MAX {
            FIRST_EPHEMERAL
        } else {
            port + 1
        };
        assert(self@.hosts =~= old(self)@.hosts.update(
            host as int,
            old(self)@.hosts[host as int].searched(1),
        ));
        port
    }

    fn ephemeral_port(&mut self, host: u32, kind: u8) -> (r: Option<u16>)
        requires
            old(self).wf(),
            host < old(self)@.hosts.len(),
        ensures
            final(self).wf(),
            r == old(self)@.with_port(host, kind).1,
            final(self)@ == old(self)@.with_port(host, kind).0,
    {
        let ghost was = self@;
        let ghost h = was.hosts[host as int];
        let mut k: u32 = 0;
        proof {
            self.lemma_wf();
            assert(was.hosts.update(host as int, h.searched(0)) =~= was.hosts);
        }
        while k <= 16383
            invariant
                k <= 16384,
                self.wf(),
                was == old(self)@,
                host < was.hosts.len(),
                h == was.hosts[host as int],
                h.next_port >= FIRST_EPHEMERAL,
                self@ == (NetView {
                    hosts: was.hosts.update(host as int, h.searched(k as int)),
                    ..was
                }),
                free_port(was.socks, h.next_port, host, kind, 0) == free_port(
                    was.socks,
                    h.next_port,
                    host,
                    kind,
                    k as int,
                ),
            decreases 16384 - k,
        {
            let port: u16 = self.next_port(host);
            proof {
                assert(port == port_after(h.next_port, k as int));
                assert(h.searched(k as int).searched(1) == h.searched(k + 1));
                assert(self@.hosts =~= was.hosts.update(host as int, h.searched(k + 1)));
            }
            let addr = Addr::inet(0, port);
            if !self.name_taken(host, kind, &addr) {
                return Some(port);
            }
            k += 1;
        }
        assert(h.searched(16384) == h);
        assert(self@.hosts =~= was.hosts);
        None
    }

    pub fn bind(&mut self, sock: u32, addr: Addr) -> (r: Result<(), NetError>)
        requires
            old(self).wf(),
            sock < MAX_SOCKETS,
            addr.wf(),
        ensures
            final(self).wf(),
            (final(self)@, r) == old(self)@.bound(sock as int, addr),
    {
        let i: usize = sock as usize;
        let ghost was = *self;
        proof {
            netstate::lemma_at(*self, i as int);
        }
        let host: u32 = self.socks[i].host;
        let kind: u8 = self.socks[i].kind;
        let family: u8 = self.socks[i].family;
        if self.socks[i].state != S_NEW {
            return Err(NetError::Errno(Errno::Inval));
        }
        if addr.family != family {
            return Err(NetError::Errno(Errno::AfNoSupport));
        }
        let mut addr = addr;
        if family == FAMILY_INET {
            proof {
                netstate::lemma_host(*self, host as int);
            }
            let own: u32 = self.hosts[host as usize].addr;
            if addr.ip != 0 && !loopback(addr.ip) && addr.ip != own {
                return Err(NetError::Errno(Errno::AddrNotAvail));
            }
            if addr.port == 0 {
                match self.ephemeral_port(host, kind) {
                    Some(port) => {
                        addr.port = port;
                    },
                    None => {
                        return Err(NetError::Errno(Errno::AddrInUse));
                    },
                }
            }
        }
        let ghost mid = *self;
        proof {
            netstate::lemma_at(*self, i as int);
        }
        if self.name_taken(host, kind, &addr) {
            return Err(NetError::Errno(Errno::AddrInUse));
        }
        let s = &mut self.socks[i];
        s.bind_to(addr);
        proof {
            netstate::lemma_changed(mid, *self, i as int);
        }
        Ok(())
    }

    pub fn listen(&mut self, sock: u32, backlog: i32) -> (r: Result<(), NetError>)
        requires
            old(self).wf(),
            sock < MAX_SOCKETS,
        ensures
            final(self).wf(),
            (final(self)@, r) == old(self)@.listening(sock as int, backlog),
    {
        let i: usize = sock as usize;
        proof {
            netstate::lemma_at(*self, i as int);
        }
        if self.socks[i].state == S_NEW {
            if self.socks[i].family != FAMILY_INET {
                return Err(NetError::Errno(Errno::DestAddrReq));
            }
            match self.bind(sock, Addr::inet(0, 0)) {
                Ok(_) => {},
                Err(e) => {
                    return Err(e);
                },
            }
        }
        let ghost mid = *self;
        proof {
            netstate::lemma_at(*self, i as int);
        }
        if self.socks[i].state != S_BOUND && self.socks[i].state != S_LISTENING {
            return Err(NetError::Errno(Errno::Inval));
        }
        let most: u32 = if backlog < 1 {
            1
        } else if backlog > 32 {
            32
        } else {
            backlog as u32
        };
        let s = &mut self.socks[i];
        s.listen_for(most);
        proof {
            netstate::lemma_changed(mid, *self, i as int);
        }
        Ok(())
    }

    fn find_listener(&self, kind: u8, family: u8, dest_host: u32, dest: &Addr) -> (r: Option<u32>)
        requires
            self.wf(),
            dest.wf(),
        ensures
            match listener_from(self@.socks, 0, kind, family, dest_host, *dest) {
                Some(l) => r == Some(l as u32) && 0 <= l < MAX_SOCKETS && listens(
                    self@.socks[l],
                    kind,
                    family,
                    dest_host,
                    *dest,
                ),
                None => r is None,
            },
    {
        let mut i: usize = 0;
        proof {
            netstate::lemma_at(*self, 0);
        }
        while i < MAX_SOCKETS
            invariant
                self.wf(),
                self@.socks.len() == MAX_SOCKETS,
                dest.wf(),
                i <= MAX_SOCKETS,
                listener_from(self@.socks, 0, kind, family, dest_host, *dest) == listener_from(
                    self@.socks,
                    i as int,
                    kind,
                    family,
                    dest_host,
                    *dest,
                ),
            decreases MAX_SOCKETS - i,
        {
            proof {
                netstate::lemma_at(*self, i as int);
            }
            let l = &self.socks[i];
            if l.state == S_LISTENING && l.host == dest_host && l.kind == kind && l.local.same_name(
                dest,
            ) && (family != FAMILY_INET || l.local.ip == 0 || (loopback(l.local.ip) && loopback(
                dest.ip,
            )) || l.local.ip == dest.ip) {
                return Some(i as u32);
            }
            i += 1;
        }
        None
    }

    /// A socket that connects without a name gets one.
    fn name_to_connect(&mut self, sock: u32, dest: &Addr) -> (r: bool)
        requires
            old(self).wf(),
            sock < MAX_SOCKETS,
        ensures
            final(self).wf(),
            match old(self)@.named_to_connect(sock as int, *dest) {
                Some(net) => r && final(self)@ == net,
                None => !r && final(self)@ == old(self)@,
            },
    {
        let i: usize = sock as usize;
        proof {
            netstate::lemma_at(*self, i as int);
        }
        let host: u32 = self.socks[i].host;
        let kind: u8 = self.socks[i].kind;
        if self.socks[i].state != S_NEW || self.socks[i].family != FAMILY_INET {
            return true;
        }
        let port: u16 = match self.ephemeral_port(host, kind) {
            Some(port) => port,
            None => {
                return false;
            },
        };
        proof {
            netstate::lemma_host(*self, host as int);
            netstate::lemma_at(*self, i as int);
        }
        let ip: u32 = if loopback(dest.ip) {
            LOOPBACK
        } else {
            self.hosts[host as usize].addr
        };
        let ghost mid = *self;
        let s = &mut self.socks[i];
        s.name_to(Addr::inet(ip, port));
        proof {
            netstate::lemma_changed(mid, *self, i as int);
        }
        true
    }

    /// Join `sock` to the far end of its connection and queue that on the
    /// listener.
    fn attach(&mut self, sock: u32, listener: u32, far: u32, far_local: Addr)
        requires
            old(self).wf(),
            sock < MAX_SOCKETS,
            listener < MAX_SOCKETS,
            far < MAX_SOCKETS,
            sock != listener,
            far_local.wf(),
            old(self)@.socks[sock as int].kind != KIND_DGRAM,
            old(self)@.socks[sock as int].at_host(),
            old(self)@.socks[listener as int].backlog.len() < old(
                self,
            )@.socks[listener as int].backlog_max,
        ensures
            final(self).wf(),
            final(self)@ == old(self)@.attached(sock as int, listener as int, far, far_local),
    {
        proof {
            netstate::lemma_at(*self, sock as int);
            netstate::lemma_at(*self, listener as int);
        }
        self.join(sock, far_local, far);
        self.enqueue(listener, far);
        let ghost linked = *self;
        self.connections = self.connections.wrapping_add(1);
        proof {
            netstate::lemma_kept(linked, *self);
        }
    }

    /// Queue a connection of `sock` on the listener.
    fn link(&mut self, sock: u32, listener: u32, dest_host: u32, dest: &Addr) -> (r: Result<
        (),
        NetError,
    >)
        requires
            old(self).wf(),
            sock < MAX_SOCKETS,
            listener < MAX_SOCKETS,
            dest_host < old(self)@.hosts.len(),
            dest.wf(),
            old(self)@.socks[sock as int].state == S_NEW || old(self)@.socks[sock as int].state
                == S_BOUND,
            old(self)@.socks[listener as int].state == S_LISTENING,
            old(self)@.socks[listener as int].kind == old(self)@.socks[sock as int].kind,
            old(self)@.socks[sock as int].kind != KIND_DGRAM,
            old(self)@.socks[listener as int].backlog.len() < old(
                self,
            )@.socks[listener as int].backlog_max,
        ensures
            final(self).wf(),
            match netstate::free_from(old(self)@.socks, 0) {
                None => final(self)@ == old(self)@ && r == netstate::failed::<()>(Errno::NFile),
                Some(far) => final(self)@ == old(self)@.joined(
                    sock as int,
                    listener as int,
                    far,
                    dest_host,
                    *dest,
                ) && r == Ok::<(), NetError>(()),
            },
    {
        let i: usize = sock as usize;
        let l: usize = listener as usize;
        proof {
            netstate::lemma_at(*self, i as int);
            netstate::lemma_at(*self, l as int);
            lemma_free_from(self@.socks, 0);
        }
        let family: u8 = self.socks[i].family;
        let kind: u8 = self.socks[i].kind;
        let near_local: Addr = self.socks[i].local;
        let mut far_local: Addr = self.socks[l].local;
        if family == FAMILY_INET {
            far_local.ip = dest.ip;
        }
        let far: u32 = match self.socket(dest_host, family, kind) {
            Ok(far) => far,
            Err(e) => {
                return Err(e);
            },
        };
        self.open_far(far, far_local, near_local, sock);
        self.attach(sock, listener, far, far_local);
        Ok(())
    }

    /// Connect `sock` to the listener `dest` names on `dest_host`. As with
    /// TCP, the connection is complete once it is queued on the listener;
    /// `accept` only hands out the far end. A datagram socket that listens is
    /// not to be connected to: what is sent over the connection would be
    /// taken for datagrams.
    pub fn connect(&mut self, sock: u32, dest_host: u32, dest: &Addr) -> (r: Result<(), NetError>)
        requires
            old(self).wf(),
            sock < MAX_SOCKETS,
            dest_host < old(self)@.hosts.len(),
            dest.wf(),
            old(self)@.no_datagram_listens(sock as int, dest_host, *dest),
        ensures
            final(self).wf(),
            (final(self)@, r) == old(self)@.connected(sock as int, dest_host, *dest),
    {
        let i: usize = sock as usize;
        proof {
            netstate::lemma_at(*self, i as int);
        }
        let kind: u8 = self.socks[i].kind;
        let family: u8 = self.socks[i].family;
        let state: u8 = self.socks[i].state;
        if state == S_CONNECTED {
            return Err(NetError::Errno(Errno::IsConn));
        }
        if state != S_NEW && state != S_BOUND {
            return Err(NetError::Errno(Errno::Inval));
        }
        let listener: u32 = match self.find_listener(kind, family, dest_host, dest) {
            Some(l) => l,
            None => {
                return Err(NetError::Errno(Errno::ConnRefused));
            },
        };
        proof {
            netstate::lemma_at(*self, listener as int);
        }
        let l = &self.socks[listener as usize];
        if l.backlog.len() >= l.backlog_max as usize {
            return Err(NetError::Errno(Errno::ConnRefused));
        }
        if !self.name_to_connect(sock, dest) {
            return Err(NetError::Errno(Errno::AddrInUse));
        }
        self.link(sock, listener, dest_host, dest)
    }

    /// Oldest queued connection of a listener.
    pub fn accept(&mut self, listener: u32) -> (r: Result<u32, NetError>)
        requires
            old(self).wf(),
            listener < MAX_SOCKETS,
        ensures
            final(self).wf(),
            (final(self)@, r) == old(self)@.accepted(listener as int),
    {
        let i: usize = listener as usize;
        let ghost was = *self;
        proof {
            netstate::lemma_at(*self, i as int);
        }
        if self.socks[i].state != S_LISTENING {
            return Err(NetError::Errno(Errno::Inval));
        }
        if self.socks[i].backlog.len() == 0 {
            return Err(NetError::WouldBlock);
        }
        let s = &mut self.socks[i];
        let far: u32 = s.dequeue();
        let ghost mid = *self;
        proof {
            netstate::lemma_changed(was, mid, i as int);
            netstate::lemma_at(mid, far as int);
        }
        let f = &mut self.socks[far as usize];
        f.set_pending(false);
        proof {
            netstate::lemma_changed(mid, *self, far as int);
        }
        Ok(far)
    }
}

} // verus!
