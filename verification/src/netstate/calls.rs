//! What the socket calls ask of the network.

use vstd::prelude::*;
use crate::errno::Errno;
use crate::netstate;
use super::{Addr, Net, NetError, NetView, SockView, FAMILY_INET, MAX_SOCKETS, NO_SOCK};

verus! {

/// What became of a `connect`
#[derive(Debug, Clone, Copy, PartialEq, Eq, Structural)]
pub enum Reached {
    Made,
    Failed(NetError),
    /// The destination is outside the virtual network.
    Outside,
}

impl NetView {
    /// With `ident` the identity of a socket's placeholder descriptor
    pub open spec fn with_ident(self, sock: int, ident: u64) -> NetView {
        NetView { idents: self.idents.update(sock, ident), ..self }
    }

    /// `connect` to `dest`, from a process on host `here`. Of an Internet
    /// name the address says which host it is; a path is always this
    /// host's.
    pub open spec fn connected_from(self, sock: int, here: u32, dest: Addr) -> (
        NetView,
        Reached,
    ) {
        let host = if dest.family == FAMILY_INET {
            self.host_at(here, dest.ip)
        } else {
            Ok(here)
        };
        match host {
            Ok(h) => {
                let (net, r) = self.connected(sock, h, dest);
                (
                    net,
                    match r {
                        Ok(()) => Reached::Made,
                        Err(e) => Reached::Failed(e),
                    },
                )
            },
            Err(true) => (self, Reached::Failed(NetError::Errno(Errno::HostUnreach))),
            Err(false) => (self, Reached::Outside),
        }
    }

    /// There is a record for one more descriptor of `pid`, of any socket.
    pub open spec fn can_add_any(self, pid: u32) -> bool {
        forall|k: u32| k < MAX_SOCKETS ==> #[trigger] self.can_add(pid, k)
    }
}

impl Net {
    /// A new socket of `pid`, on its host, behind the descriptor that
    /// `ident` identifies
    pub fn open_socket(&mut self, pid: u32, host: u32, family: u8, kind: u8, ident: u64) -> (r:
        Result<u32, NetError>)
        requires
            old(self).wf(),
            host < old(self)@.hosts.len(),
            old(self)@.can_add_any(pid),
        ensures
            final(self).wf(),
            match netstate::free_from(old(self)@.socks, 0) {
                Some(i) => r == Ok::<u32, NetError>(i as u32) && 0 <= i < MAX_SOCKETS && final(self)@
                    == old(self)@.with_new(i, host, family, kind).with_ident(i, ident).ref_added(
                    pid,
                    i as u32,
                ),
                None => r == Err::<u32, NetError>(NetError::Errno(Errno::NFile)) && final(self)@
                    == old(self)@,
            },
    {
        let sock: u32 = match self.socket(host, family, kind) {
            Ok(s) => s,
            Err(e) => {
                return Err(e);
            },
        };
        self.set_ident(sock, ident);
        assert(old(self)@.can_add(pid, sock));
        assert(self@.fdrefs == old(self)@.fdrefs);
        self.add_ref(pid, sock);
        Ok(sock)
    }

    /// The oldest queued connection of a listener, behind the descriptor
    /// that `ident` identifies: the socket, and who is at its other end
    pub fn accept_as(&mut self, pid: u32, listener: u32, ident: u64) -> (r: Result<
        (u32, Addr),
        NetError,
    >)
        requires
            old(self).wf(),
            listener < MAX_SOCKETS,
            old(self)@.can_add_any(pid),
        ensures
            final(self).wf(),
            ({
                let (net, got) = old(self)@.accepted(listener as int);
                match got {
                    Ok(far) => r == Ok::<(u32, Addr), NetError>(
                        (far, net.socks[far as int].peer),
                    ) && final(self)@ == net.with_ident(far as int, ident).ref_added(pid, far),
                    Err(e) => r == Err::<(u32, Addr), NetError>(e) && final(self)@ == old(self)@,
                }
            }),
    {
        proof {
            netstate::lemma_at(*self, listener as int);
            reveal(SockView::wf);
        }
        let far: u32 = match self.accept(listener) {
            Ok(f) => f,
            Err(e) => {
                return Err(e);
            },
        };
        proof {
            netstate::lemma_at(*self, far as int);
        }
        let peer: Addr = self.socks[far as usize].peer;
        self.set_ident(far, ident);
        assert(old(self)@.can_add(pid, far));
        assert(self@.fdrefs == old(self)@.fdrefs);
        self.add_ref(pid, far);
        Ok((far, peer))
    }

    /// Connect `sock`, of a process on host `here`, to `dest`.
    pub fn connect_from(&mut self, sock: u32, here: u32, dest: &Addr) -> (r: Reached)
        requires
            old(self).wf(),
            sock < MAX_SOCKETS,
            here < old(self)@.hosts.len(),
            dest.wf(),
            forall|h: u32| #[trigger]
                old(self)@.no_datagram_listens(sock as int, h, *dest),
        ensures
            final(self).wf(),
            (final(self)@, r) == old(self)@.connected_from(sock as int, here, *dest),
    {
        let mut host: u32 = here;
        if dest.family == FAMILY_INET {
            match self.host_for_ip(here, dest.ip) {
                Ok(h) => {
                    host = h;
                },
                Err(ours) => {
                    return if ours {
                        Reached::Failed(NetError::Errno(Errno::HostUnreach))
                    } else {
                        Reached::Outside
                    };
                },
            }
        }
        match self.connect(sock, host, dest) {
            Ok(()) => Reached::Made,
            Err(e) => Reached::Failed(e),
        }
    }

    /// What a socket is called. A socket without a name has its family.
    pub fn name_of(&self, sock: u32) -> (r: Addr)
        requires
            self.wf(),
            sock < MAX_SOCKETS,
        ensures
            r == (Addr {
                family: self@.socks[sock as int].family,
                ..self@.socks[sock as int].local
            }),
            r.wf(),
    {
        proof {
            netstate::lemma_at(*self, sock as int);
        }
        let k = &self.socks[sock as usize];
        let mut a: Addr = k.local;
        a.family = k.family;
        a
    }

    /// Who is at the other end, if there is one
    pub fn peer_of(&self, sock: u32) -> (r: Option<Addr>)
        requires
            self.wf(),
            sock < MAX_SOCKETS,
        ensures
            r == (if self@.socks[sock as int].far_end != NO_SOCK {
                Some(self@.socks[sock as int].peer)
            } else {
                None
            }),
    {
        proof {
            netstate::lemma_at(*self, sock as int);
        }
        let k = &self.socks[sock as usize];
        if k.far_end != NO_SOCK {
            Some(k.peer)
        } else {
            None
        }
    }

    /// A connection left the virtual network for the kernel's.
    pub fn left(&mut self, pid: u32, sock: u32)
        requires
            old(self).wf(),
            sock < MAX_SOCKETS,
            old(self)@.can_add(pid, sock),
        ensures
            final(self).wf(),
            final(self)@ == ({
                let net = old(self)@.ref_dropped(pid, sock);
                NetView { passthrough: net.passthrough.wrapping_add(1), ..net }
            }),
    {
        self.drop_ref(pid, sock);
        proof {
            reveal(Net::wf);
        }
        self.passthrough = self.passthrough.wrapping_add(1);
    }
}

/// What was accepted is found by the descriptor it was put behind.
pub proof fn an_accepted_socket_is_found(net: NetView, far: int, ident: u64, k: int)
    requires
        0 <= k <= far < net.idents.len() <= u32::MAX,
        ident != 0,
        forall|i: int| k <= i < far ==> #[trigger] net.idents[i] != ident,
    ensures
        netstate::identified(net.with_ident(far, ident).idents, ident, k) == Some(far as u32),
    decreases far - k,
{
    let after = net.with_ident(far, ident);
    if k < far {
        assert(after.idents[k] == net.idents[k]);
        an_accepted_socket_is_found(net, far, ident, k + 1);
    }
}

} // verus!
