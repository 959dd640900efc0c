//! What a virtual socket is ready for, in the terms of `kevent` and `poll`.

use vstd::prelude::*;
use super::traffic;
use super::{Net, NetView, KIND_DGRAM, MAX_SOCKETS, S_CLOSED, S_CONNECTED, S_LISTENING};
use crate::netstate;

verus! {

pub const POLLIN: i16 = 0x01;

pub const POLLPRI: i16 = 0x02;

pub const POLLOUT: i16 = 0x04;

pub const POLLERR: i16 = 0x08;

pub const POLLHUP: i16 = 0x10;

pub const POLLNVAL: i16 = 0x20;

pub const POLLRDNORM: i16 = 0x40;

/// Both of the words for "readable", and both for "writable"
pub const READ_WORDS: i16 = 0x41;

pub const WRITE_WORDS: i16 = 0x04;

/// What there is to read or write
#[derive(Debug, Clone, Copy, PartialEq, Eq, Structural)]
pub struct Readiness {
    pub ready: bool,
    /// The peer has sent its last.
    pub eof: bool,
    /// How much there is
    pub data: i64,
}

impl NetView {
    pub open spec fn readable(self, sock: int) -> bool {
        let s = self.socks[sock];
        if s.kind == KIND_DGRAM {
            s.rx.len() > 0
        } else if s.state == S_LISTENING {
            s.backlog.len() > 0
        } else if s.state == S_CONNECTED {
            s.rx.len() > 0 || s.fin || s.shut_rd
        } else {
            true
        }
    }

    pub open spec fn writable(self, sock: int) -> bool {
        let s = self.socks[sock];
        let p = self.socks[s.far_end as int];
        s.state != S_CONNECTED || s.shut_wr || p.state != S_CONNECTED || p.shut_rd || p.window()
            > 0
    }

    /// Bytes that could be read
    pub open spec fn pending(self, sock: int) -> int {
        let s = self.socks[sock];
        if s.kind != KIND_DGRAM || s.rx.len() == 0 {
            s.rx.len() as int
        } else {
            traffic::payload_of(s.rx).len() as int
        }
    }

    /// A stream whose peer has sent its last
    pub open spec fn ended(self, sock: int) -> bool {
        let s = self.socks[sock];
        s.kind != KIND_DGRAM && s.state == S_CONNECTED && s.fin
    }

    /// What there is to read
    pub open spec fn to_read(self, sock: int) -> Readiness {
        Readiness {
            ready: self.readable(sock),
            eof: self.ended(sock),
            data: if self.socks[sock].state == S_LISTENING {
                if self.readable(sock) {
                    1
                } else {
                    0
                }
            } else {
                self.pending(sock) as i64
            },
        }
    }

    /// What there is to write
    pub open spec fn to_write(self, sock: int) -> Readiness {
        Readiness { ready: self.writable(sock), eof: false, data: 0 }
    }

    /// Both directions are over: the peer sent its last and is gone.
    pub open spec fn hung_up(self, sock: int) -> bool {
        self.ended(sock) && self.socks[self.socks[sock].far_end as int].state == S_CLOSED
    }

    /// The events a socket has of those that are wanted, and those that
    /// are always told
    pub open spec fn events(self, sock: int, wanted: i16) -> i16 {
        let read = if wanted & READ_WORDS != 0 && self.readable(sock) {
            wanted & READ_WORDS
        } else {
            0i16
        };
        let write = if wanted & WRITE_WORDS != 0 && self.writable(sock) {
            wanted & WRITE_WORDS
        } else {
            0i16
        };
        let over = if self.hung_up(sock) {
            POLLHUP
        } else {
            0i16
        };
        read | write | over
    }
}

impl Net {
    /// What there is to read, or to write
    pub fn readiness(&self, sock: u32, reading: bool) -> (r: Readiness)
        requires
            self.wf(),
            sock < MAX_SOCKETS,
        ensures
            r == (if reading {
                self@.to_read(sock as int)
            } else {
                self@.to_write(sock as int)
            }),
    {
        proof {
            netstate::lemma_at(*self, sock as int);
        }
        if !reading {
            return Readiness { ready: self.writable(sock), eof: false, data: 0 };
        }
        let ready: bool = self.readable(sock);
        let s = &self.socks[sock as usize];
        let eof: bool = s.kind != KIND_DGRAM && s.state == S_CONNECTED && s.fin;
        let data: i64 = if s.state == S_LISTENING {
            if ready {
                1
            } else {
                0
            }
        } else {
            self.pending_bytes(sock) as i64
        };
        Readiness { ready, eof, data }
    }

    /// The events a socket has now, limited to what was asked for (plus the
    /// ones `poll` always reports)
    pub fn poll_events(&self, sock: u32, wanted: i16) -> (r: i16)
        requires
            self.wf(),
            sock < MAX_SOCKETS,
        ensures
            r == self@.events(sock as int, wanted),
    {
        proof {
            netstate::lemma_at(*self, sock as int);
        }
        let read: i16 = if wanted & READ_WORDS != 0 && self.readable(sock) {
            wanted & READ_WORDS
        } else {
            0
        };
        let write: i16 = if wanted & WRITE_WORDS != 0 && self.writable(sock) {
            wanted & WRITE_WORDS
        } else {
            0
        };
        let s = &self.socks[sock as usize];
        let mut over: i16 = 0;
        if s.kind != KIND_DGRAM && s.state == S_CONNECTED && s.fin {
            let peer: u32 = s.far_end;
            proof {
                netstate::lemma_at(*self, peer as int);
            }
            if self.socks[peer as usize].state == S_CLOSED {
                over = POLLHUP;
            }
        }
        read | write | over
    }
}

} // verus!
