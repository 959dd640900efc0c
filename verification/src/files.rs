//! Files are not virtualized, but two things about them matter to the
//! schedule: file I/O calls are hook events, and a blocking lock request
//! must not hold the baton. Names of shared memory objects are the run's
//! own.

use vstd::prelude::*;
use crate::bytes::cut;
use crate::environ;
use crate::words;
use crate::words::push_padded;

verus! {

pub const LOCK_NB: i32 = 4;

pub const LOCK_UN: i32 = 8;

/// How a `flock` is made
#[derive(Debug, Clone, Copy, PartialEq, Eq, Structural)]
pub enum Flock {
    /// Make it, and wake the I/O waiters: a blocked request retries exactly
    /// when it could succeed.
    Unlock,
    Once,
    /// Try without blocking, parking in between, until it succeeds or fails
    /// for good.
    Retry(i32),
}

pub fn flock_plan(op: i32) -> (r: Flock)
    ensures
        r == (if op & LOCK_UN != 0 {
            Flock::Unlock
        } else if op & LOCK_NB != 0 {
            Flock::Once
        } else {
            Flock::Retry(op | LOCK_NB)
        }),
{
    if op & LOCK_UN != 0 {
        Flock::Unlock
    } else if op & LOCK_NB != 0 {
        Flock::Once
    } else {
        Flock::Retry(op | LOCK_NB)
    }
}

/// What follows an attempt at a lock
#[derive(Debug, Clone, Copy, PartialEq, Eq, Structural)]
pub struct Locked {
    /// Wake the I/O waiters.
    pub wake: bool,
    /// Park and try again; else the call returns what it was given.
    pub park: bool,
}

/// After `fcntl(F_SETLK)`: `busy` when somebody else holds the lock.
pub fn record_lock(succeeded: bool, busy: bool, unlocking: bool, wait: bool) -> (r: Locked)
    ensures
        r.wake == (succeeded && unlocking),
        r.park == (!succeeded && busy && wait),
{
    Locked { wake: succeeded && unlocking, park: !succeeded && busy && wait }
}

/// The longest name of a shared memory object
pub const NAME_ROOM: usize = 31;

/// A name without its leading slash
pub open spec fn bare(name: Seq<u8>) -> Seq<u8> {
    if name.len() > 0 && name[0] == 0x2f {
        name.skip(1)
    } else {
        name
    }
}

/// A name as the run gives it to the kernel
pub open spec fn run_name(name: Seq<u8>, tag: u32) -> Seq<u8> {
    environ::encoded("/r"@ + words::padded((tag % 0x1_0000) as nat, 16, 4)) + bare(name)
}

/// A POSIX shared memory name as this run gives it to the kernel: prefixed
/// with the launcher's pid, so that runs never meet each other's objects (a
/// name is machine-wide, and one a killed guest left behind would make a
/// create fail and the guest try another). None when it would not fit, in
/// which case the name stays as it is.
pub fn run_pshm_name(name: &[u8], tag: u32) -> (r: Option<Vec<u8>>)
    ensures
        r is Some == (run_name(name@, tag).len() <= NAME_ROOM),
        r matches Some(n) ==> n@ == run_name(name@, tag),
{
    let mut head = String::new();
    head.append("/r");
    push_padded(&mut head, (tag % 0x1_0000) as u64, 16, 4);
    assert(head@ =~= "/r"@ + words::padded((tag % 0x1_0000) as nat, 16, 4));
    let from: usize = if name.len() > 0 && name[0] == 0x2f {
        1
    } else {
        0
    };
    let b = head.as_str().as_bytes();
    let mut out = cut(b, 0, b.len());
    let mut rest = cut(name, from, name.len());
    assert(rest@ =~= bare(name@));
    assert(b@.subrange(0, b@.len() as int) =~= b@);
    out.append(&mut rest);
    if out.len() <= NAME_ROOM {
        Some(out)
    } else {
        None
    }
}

/// Names stay apart within a run: two names that differ beyond a leading
/// slash are given to the kernel as two.
pub proof fn shared_names_stay_apart(a: Seq<u8>, b: Seq<u8>, tag: u32)
    requires
        run_name(a, tag) == run_name(b, tag),
    ensures
        bare(a) == bare(b),
{
    let head = environ::encoded("/r"@ + words::padded((tag % 0x1_0000) as nat, 16, 4));
    let n = head.len() as int;
    assert(run_name(a, tag).skip(n) =~= bare(a));
    assert(run_name(b, tag).skip(n) =~= bare(b));
}

/// The shared memory objects the run has made, by the names the kernel has
/// them under: the launcher removes them when the run ends.
pub struct SharedNames {
    pub names: Vec<Vec<u8>>,
    /// How many it has room for
    pub room: usize,
}

/// Names as bytes
pub open spec fn all_bytes(names: Seq<Vec<u8>>) -> Seq<Seq<u8>> {
    names.map_values(|n: Vec<u8>| n@)
}

impl SharedNames {
    pub fn new(room: usize) -> (r: Self)
        ensures
            all_bytes(r.names@) == Seq::<Seq<u8>>::empty(),
            r.room == room,
    {
        let r = SharedNames { names: Vec::new(), room };
        assert(all_bytes(r.names@) =~= Seq::empty());
        r
    }

    /// An object was made under this name. One that no record holds, for want
    /// of room or for its length, is left to the machine.
    pub fn note(&mut self, name: &[u8])
        ensures
            final(self).room == old(self).room,
            all_bytes(final(self).names@) == (if old(self).names@.len() < old(self).room
                && name@.len() <= NAME_ROOM {
                all_bytes(old(self).names@).push(name@)
            } else {
                all_bytes(old(self).names@)
            }),
    {
        if self.names.len() < self.room && name.len() <= NAME_ROOM {
            let ghost was = all_bytes(self.names@);
            self.names.push(cut(name, 0, name.len()));
            assert(name@.subrange(0, name@.len() as int) =~= name@);
            assert(all_bytes(self.names@) =~= was.push(name@));
        }
    }
}

} // verus!
