//! The socket calls over the virtual network: names as the calls pass them,
//! and transfers that take more than one attempt. Blocking calls become
//! readiness waits like pipe I/O.

use vstd::prelude::*;
use crate::bytes;
use crate::bytes::cut;
use crate::errno::Errno;
use crate::names::{AF_INET, SOCK_DGRAM, SOCK_STREAM};
use crate::netstate::{
    Addr, NetError, FAMILY_INET, FAMILY_UNIX, KIND_DGRAM, KIND_STREAM, UNIX_PATH_MAX,
};

verus! {

pub const AF_UNIX: i32 = 1;

pub const AF_INET6: i32 = 30;

/// The size of an Internet name
pub const SOCKADDR_IN: usize = 16;

pub const SOL_SOCKET: i32 = 0xFFFF;

pub const SO_TYPE: i32 = 0x1008;

pub const MSG_PEEK: i32 = 0x2;

pub const MSG_WAITALL: i32 = 0x40;

pub const MSG_DONTWAIT: i32 = 0x80;

pub const SHUT_RD: i32 = 0;

pub const SHUT_WR: i32 = 1;

/// What a call of `socket` makes
#[derive(Debug, Clone, Copy, PartialEq, Eq, Structural)]
pub enum Opens {
    /// A socket of the virtual network
    Virtual { family: u8, kind: u8 },
    /// `EAFNOSUPPORT`: programs fall back to addresses of the run.
    Unsupported,
    Kernel,
}

/// What a call of `socket` makes. In a run, Internet stream and datagram
/// sockets and local stream sockets are the virtual network's, and there
/// are no IPv6 sockets: a listener that has one would live outside the run
/// while clients connect to its virtual address.
pub fn opens(in_run: bool, domain: i32, ty: i32) -> (r: Opens)
    ensures
        r == (if !in_run {
            Opens::Kernel
        } else if domain == AF_INET6 {
            Opens::Unsupported
        } else if domain == AF_INET && ty == SOCK_STREAM {
            Opens::Virtual { family: FAMILY_INET, kind: KIND_STREAM }
        } else if domain == AF_INET && ty == SOCK_DGRAM {
            Opens::Virtual { family: FAMILY_INET, kind: KIND_DGRAM }
        } else if domain == AF_UNIX && ty == SOCK_STREAM {
            Opens::Virtual { family: FAMILY_UNIX, kind: KIND_STREAM }
        } else {
            Opens::Kernel
        }),
{
    if !in_run {
        Opens::Kernel
    } else if domain == AF_INET6 {
        Opens::Unsupported
    } else if domain == AF_INET && ty == SOCK_STREAM {
        Opens::Virtual { family: FAMILY_INET, kind: KIND_STREAM }
    } else if domain == AF_INET && ty == SOCK_DGRAM {
        Opens::Virtual { family: FAMILY_INET, kind: KIND_DGRAM }
    } else if domain == AF_UNIX && ty == SOCK_STREAM {
        Opens::Virtual { family: FAMILY_UNIX, kind: KIND_STREAM }
    } else {
        Opens::Kernel
    }
}

/// What becomes of a `connect` to an address outside the virtual network:
/// it fails, or the socket leaves for the kernel's network where the run
/// allows that. What comes back from there cannot be repeated.
pub fn outside(allowed: bool) -> (r: Result<(), Errno>)
    ensures
        r == (if allowed {
            Ok::<(), Errno>(())
        } else {
            Err(Errno::NetUnreach)
        }),
{
    if allowed {
        Ok(())
    } else {
        Err(Errno::NetUnreach)
    }
}

/// The first zero byte from `i` on, or the end
pub open spec fn zero_from(b: Seq<u8>, i: int) -> int
    decreases b.len() - i,
{
    if i >= b.len() || b[i] == 0 {
        i
    } else {
        zero_from(b, i + 1)
    }
}

/// The path that a local name holds: up to a zero, cut off where it is too
/// long
pub open spec fn path_in(b: Seq<u8>) -> Seq<u8> {
    let end = zero_from(b, 2);
    b.subrange(2, if end - 2 < UNIX_PATH_MAX {
        end
    } else {
        2 + UNIX_PATH_MAX
    })
}

/// The name is of the kind that `a` is and says the same.
pub open spec fn says(b: Seq<u8>, a: Addr) -> bool {
    if b[1] == AF_INET {
        a == Addr::inet_name(
            (b[4] * 0x100_0000 + b[5] * 0x1_0000 + b[6] * 0x100 + b[7]) as u32,
            (b[2] * 0x100 + b[3]) as u16,
        )
    } else {
        a.family == FAMILY_UNIX && a.ip == 0 && a.port == 0 && a.path_bytes() == path_in(b)
            && a.path@ == bytes::padded(path_in(b), 104)
    }
}

/// A name the virtual network knows: an Internet name in full, or a local
/// one
pub open spec fn is_name(b: Seq<u8>) -> bool {
    b.len() >= 2 && (b[1] == AF_INET && b.len() >= SOCKADDR_IN || b[1] == AF_UNIX)
}

/// The name that a call passes
pub fn parse_addr(b: &[u8]) -> (r: Option<Addr>)
    ensures
        r is Some == is_name(b@),
        r matches Some(a) ==> a.wf() && says(b@, a),
{
    if b.len() < 2 {
        return None;
    }
    let family: i32 = b[1] as i32;
    if family == AF_INET && b.len() >= SOCKADDR_IN {
        let ip: u32 = b[4] as u32 * 0x100_0000 + b[5] as u32 * 0x1_0000 + b[6] as u32 * 0x100
            + b[7] as u32;
        let port: u16 = b[2] as u16 * 0x100 + b[3] as u16;
        return Some(Addr::inet(ip, port));
    }
    if family == AF_UNIX {
        let mut end: usize = 2;
        while end < b.len() && b[end] != 0
            invariant
                2 <= end <= b@.len(),
                zero_from(b@, 2) == zero_from(b@, end as int),
            decreases b@.len() - end,
        {
            end += 1;
        }
        let path = vstd::slice::slice_subrange(b, 2, end);
        let a = Addr::unix(path);
        assert(path@.take(a.path_len as int) =~= path_in(b@));
        return Some(a);
    }
    None
}

/// A name as the calls return it
pub open spec fn written(a: Addr) -> Seq<u8> {
    if a.family == FAMILY_INET {
        seq![
            16u8,
            2,
            (a.port / 0x100) as u8,
            (a.port % 0x100) as u8,
            (a.ip / 0x100_0000) as u8,
            (a.ip / 0x1_0000 % 0x100) as u8,
            (a.ip / 0x100 % 0x100) as u8,
            (a.ip % 0x100) as u8,
        ] + bytes::zeros(8)
    } else {
        let path = a.path_bytes();
        let n = if path.len() < UNIX_PATH_MAX {
            path.len() + 3
        } else {
            106
        };
        bytes::padded(seq![n as u8, 1u8] + path, n as nat)
    }
}

/// A name as the calls return it
pub fn addr_bytes(a: &Addr) -> (r: Vec<u8>)
    requires
        a.wf(),
    ensures
        r@ == written(*a),
        r@.len() <= 2 + UNIX_PATH_MAX,
{
    let mut out: Vec<u8> = Vec::new();
    if a.family == FAMILY_INET {
        out.push(16);
        out.push(2);
        out.push((a.port / 0x100) as u8);
        out.push((a.port % 0x100) as u8);
        out.push((a.ip / 0x100_0000) as u8);
        out.push((a.ip / 0x1_0000 % 0x100) as u8);
        out.push((a.ip / 0x100 % 0x100) as u8);
        out.push((a.ip % 0x100) as u8);
        bytes::push_zeros(&mut out, 8);
        assert(out@ =~= written(*a));
    } else {
        let path = a.path();
        let zero: bool = path.len() < UNIX_PATH_MAX;
        let n: usize = path.len() + if zero {
            3
        } else {
            2
        };
        out.push(n as u8);
        out.push(1);
        let mut p = cut(path, 0, path.len());
        out.append(&mut p);
        if zero {
            out.push(0);
        }
        assert(out@ =~= written(*a));
    }
    out
}

/// What a call writes into a buffer of `room` bytes, and the length it
/// reports: truncated to the buffer, with the full length reported
pub fn store_addr(a: &Addr, room: usize) -> (r: (Vec<u8>, usize))
    requires
        a.wf(),
    ensures
        r.1 == written(*a).len(),
        r.0@ == (if written(*a).len() <= room {
            written(*a)
        } else {
            written(*a).take(room as int)
        }),
{
    let full = addr_bytes(a);
    let n: usize = full.len();
    if n <= room {
        return (full, n);
    }
    let part = cut(full.as_slice(), 0, room);
    assert(part@ =~= written(*a).take(room as int));
    (part, n)
}

proof fn lemma_zero_from(b: Seq<u8>, i: int, end: int)
    requires
        0 <= i <= end <= b.len(),
        forall|k: int| i <= k < end ==> #[trigger] b[k] != 0,
        end == b.len() || b[end] == 0,
    ensures
        zero_from(b, i) == end,
    decreases end - i,
{
    if i < end {
        lemma_zero_from(b, i + 1, end);
    }
}

/// A name reads back as it was written: an Internet name always, a path that
/// holds no zero.
pub proof fn a_name_reads_back(a: Addr)
    requires
        a.wf(),
        a.family == FAMILY_INET || a.family == FAMILY_UNIX,
        !a.path_bytes().contains(0),
    ensures
        is_name(written(a)),
        a.family == FAMILY_INET ==> forall|got: Addr| #[trigger]
            says(written(a), got) ==> got == Addr::inet_name(a.ip, a.port),
        a.family == FAMILY_UNIX ==> path_in(written(a)) == a.path_bytes(),
{
    let b = written(a);
    if a.family == FAMILY_INET {
        let p = a.port;
        assert((p / 0x100) as u8 * 0x100 + (p % 0x100) as u8 == p);
        let i = a.ip;
        assert((i / 0x100_0000) as u8 * 0x100_0000 + (i / 0x1_0000 % 0x100) as u8 * 0x1_0000 + (i
            / 0x100 % 0x100) as u8 * 0x100 + (i % 0x100) as u8 == i);
    } else {
        let path = a.path_bytes();
        assert forall|k: int| 2 <= k < 2 + path.len() implies #[trigger] b[k] != 0 by {
            assert(b[k] == path[k - 2]);
            assert(path.contains(path[k - 2]));
        }
        lemma_zero_from(b, 2, 2 + path.len() as int);
        assert(path_in(b) =~= path);
    }
}

/// What one attempt at a call came to
#[derive(Debug, Clone, Copy, PartialEq, Eq, Structural)]
pub enum Attempt {
    Done(usize),
    Failed(Errno),
    /// Not ready: park until something may have changed, and try again.
    Park,
}

/// One attempt: a descriptor that must not wait fails instead of parking.
pub fn attempt(r: Result<usize, NetError>, dontwait: bool) -> (a: Attempt)
    ensures
        a == (match r {
            Ok(n) => Attempt::Done(n),
            Err(NetError::Errno(e)) => Attempt::Failed(e),
            Err(NetError::WouldBlock) => if dontwait {
                Attempt::Failed(Errno::Again)
            } else {
                Attempt::Park
            },
        }),
{
    match r {
        Ok(n) => Attempt::Done(n),
        Err(NetError::Errno(e)) => Attempt::Failed(e),
        Err(NetError::WouldBlock) => if dontwait {
            Attempt::Failed(Errno::Again)
        } else {
            Attempt::Park
        },
    }
}

/// What follows an attempt
#[derive(Debug, Clone, Copy, PartialEq, Eq, Structural)]
pub enum Next {
    /// Go on with the rest.
    Again,
    Park,
    /// So many bytes
    Return(usize),
    Fail(Errno),
}

/// A transfer of up to `len` bytes
#[derive(Debug, Clone, Copy, PartialEq, Eq, Structural)]
pub struct Transfer {
    pub len: usize,
    pub done: usize,
    /// Goes on until all is there, or the other end is done.
    pub all: bool,
    /// An attempt may transfer nothing because the other end is done.
    pub receiving: bool,
}

impl Transfer {
    pub open spec fn wf(self) -> bool {
        self.done <= self.len
    }

    /// A blocking stream send: all of it, unless the descriptor does not
    /// wait
    pub fn sending(len: usize) -> (r: Self)
        ensures
            r == (Transfer { len, done: 0, all: true, receiving: false }),
    {
        Transfer { len, done: 0, all: true, receiving: false }
    }

    /// A receive: what is there, or all of it where the caller says so.
    /// What is only looked at is not waited for.
    pub fn receiving(len: usize, flags: i32) -> (r: Self)
        ensures
            r == (Transfer {
                len,
                done: 0,
                all: flags & MSG_WAITALL != 0 && flags & MSG_PEEK == 0,
                receiving: true,
            }),
    {
        Transfer {
            len,
            done: 0,
            all: flags & MSG_WAITALL != 0 && flags & MSG_PEEK == 0,
            receiving: true,
        }
    }

    /// What an attempt that came to `a` leads to
    pub open spec fn next(self, a: Attempt) -> (Transfer, Next) {
        match a {
            Attempt::Park => (self, Next::Park),
            Attempt::Failed(e) => (
                self,
                if self.done > 0 {
                    Next::Return(self.done)
                } else {
                    Next::Fail(e)
                },
            ),
            Attempt::Done(n) => {
                let after = Transfer { done: (self.done + n) as usize, ..self };
                if self.receiving && n == 0 {
                    (self, Next::Return(self.done))
                } else if !self.all || after.done >= self.len {
                    (after, Next::Return(after.done))
                } else {
                    (after, Next::Again)
                }
            },
        }
    }

    /// An attempt at the rest has come to `a`.
    pub fn step(&mut self, a: Attempt) -> (r: Next)
        requires
            old(self).wf(),
            a matches Attempt::Done(n) ==> n <= old(self).len - old(self).done,
        ensures
            final(self).wf(),
            (*final(self), r) == old(self).next(a),
    {
        match a {
            Attempt::Park => Next::Park,
            Attempt::Failed(e) => if self.done > 0 {
                Next::Return(self.done)
            } else {
                Next::Fail(e)
            },
            Attempt::Done(n) => {
                if self.receiving && n == 0 {
                    return Next::Return(self.done);
                }
                self.done = self.done + n;
                if !self.all || self.done >= self.len {
                    Next::Return(self.done)
                } else {
                    Next::Again
                }
            },
        }
    }
}

/// A send that no attempt fails ends only when every byte is sent.
pub proof fn a_send_without_failure_sends_all(t: Transfer, a: Attempt)
    requires
        t.wf(),
        t.all,
        !t.receiving,
        !(a is Failed),
        a matches Attempt::Done(n) ==> n <= t.len - t.done,
    ensures
        t.next(a).1 matches Next::Return(n) ==> n == t.len,
        !(t.next(a).1 is Fail),
{
}

/// What was transferred before a failure is reported instead of it.
pub proof fn a_failure_does_not_lose_bytes(t: Transfer, e: Errno)
    ensures
        t.next(Attempt::Failed(e)).1 == (if t.done > 0 {
            Next::Return(t.done)
        } else {
            Next::Fail(e)
        }),
{
}

/// Which directions a `shutdown` ends
pub fn shut(how: i32) -> (r: (bool, bool))
    ensures
        r == (how != SHUT_WR, how != SHUT_RD),
{
    (how != SHUT_WR, how != SHUT_RD)
}

/// The value of an option of a socket of that kind. Options have no effect on
/// the virtual network.
pub fn option_value(kind: u8, level: i32, name: i32) -> (r: i32)
    ensures
        r == (if level == SOL_SOCKET && name == SO_TYPE {
            if kind == KIND_DGRAM {
                SOCK_DGRAM
            } else {
                SOCK_STREAM
            }
        } else {
            0
        }),
{
    if level != SOL_SOCKET || name != SO_TYPE {
        0
    } else if kind == KIND_DGRAM {
        SOCK_DGRAM
    } else {
        SOCK_STREAM
    }
}

} // verus!
