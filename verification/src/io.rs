//! Blocking I/O on kernel objects that guests share: pipes, and sockets that
//! pass through to the kernel. A call that would block must not hold the
//! baton, so it becomes a readiness wait: try without blocking, park as an
//! I/O waiter if not ready, and look again when woken.

use vstd::prelude::*;
use crate::bytes::cut;
use crate::environ;
use crate::errno::Errno;
use crate::net::MSG_DONTWAIT;
use crate::shared::COORD_FD;
use crate::text;
use crate::text::{chars_of, parse_unsigned, split, split_once};
use crate::words;
use crate::words::parse_signed;

verus! {

/// The device and inode that one entry of the list names
pub open spec fn entry(e: Seq<char>) -> Option<(i64, u64)> {
    match text::split_at_first(e, ':') {
        Some((dev, ino)) => match (
            words::signed_value(dev),
            text::unsigned_value(ino, 10, u64::MAX as nat),
        ) {
            (Some(d), Some(i)) => Some((d as i64, i as u64)),
            _ => None,
        },
        None => None,
    }
}

/// The objects that the first `n` entries name. An entry of zeros only pads
/// the list.
pub open spec fn entries(list: Seq<Seq<char>>, n: int) -> Seq<(i64, u64)>
    decreases n,
{
    if n <= 0 {
        Seq::empty()
    } else {
        let before = entries(list, n - 1);
        match entry(list[n - 1]) {
            Some(o) => if o.0 != 0 || o.1 != 0 {
                before.push(o)
            } else {
                before
            },
            None => before,
        }
    }
}

/// The objects that a list names
pub open spec fn listed(s: Seq<char>) -> Seq<(i64, u64)> {
    let list = text::pieces(s, ',');
    entries(list, list.len() as int)
}

fn parse_entry(e: &Vec<char>) -> (r: Option<(i64, u64)>)
    ensures
        r == entry(e@),
{
    match split_once(e, ':') {
        Some((dev, ino)) => match (parse_signed(&dev), parse_unsigned(&ino, 10, u64::MAX)) {
            (Some(d), Some(i)) => Some((d, i)),
            _ => None,
        },
        None => None,
    }
}

/// Device and inode of the descriptors whose peer is outside the run
pub fn external(list: &str) -> (r: Vec<(i64, u64)>)
    ensures
        r@ == listed(list@),
{
    let parts = split(&chars_of(list), ',');
    let ghost all = text::pieces(list@, ',');
    let mut out: Vec<(i64, u64)> = Vec::new();
    let mut i: usize = 0;
    while i < parts.len()
        invariant
            i <= parts@.len(),
            all.len() == parts@.len(),
            forall|k: int| 0 <= k < all.len() ==> #[trigger] all[k] == parts@[k]@,
            out@ == entries(all, i as int),
        decreases parts@.len() - i,
    {
        assert(all[i as int] == parts@[i as int]@);
        if let Some(o) = parse_entry(&parts[i]) {
            if o.0 != 0 || o.1 != 0 {
                out.push(o);
            }
        }
        i += 1;
    }
    out
}

/// What the launcher says of its own descriptor, as a guest takes it
pub open spec fn meant(o: environ::Object) -> Seq<(i64, u64)> {
    if o.pipe && (o.dev != 0 || o.ino != 0) {
        seq![(o.dev as i64, o.ino)]
    } else {
        Seq::empty()
    }
}

proof fn lemma_number(n: nat, width: int, max: nat)
    requires
        n <= max,
    ensures
        text::unsigned_value(words::padded(n, 10, width), 10, max) == Some(n),
        words::padded(n, 10, width).len() > 0,
        words::padded(n, 10, width)[0] != '-',
        words::padded(n, 10, width)[0] != '+',
        !words::padded(n, 10, width).contains(':'),
        !words::padded(n, 10, width).contains(','),
{
    let p = words::padded(n, 10, width);
    words::padded_numbers_read_back(n, 10, width);
    assert('0' <= p[0] <= '9' || 'a' <= p[0] <= 'f');
    if p.contains(':') {
        let i = choose|i: int| 0 <= i < p.len() && p[i] == ':';
        assert('0' <= p[i] <= '9' || 'a' <= p[i] <= 'f');
    }
    if p.contains(',') {
        let i = choose|i: int| 0 <= i < p.len() && p[i] == ',';
        assert('0' <= p[i] <= '9' || 'a' <= p[i] <= 'f');
    }
}

proof fn lemma_device(n: i32)
    ensures
        words::signed_value(environ::device(n)) == Some(n as int),
        !environ::device(n).contains(':'),
        !environ::device(n).contains(','),
{
    let d = environ::device(n);
    if n < 0 {
        let body = words::padded(-n as nat, 10, 10);
        lemma_number(-n as nat, 10, 0x8000_0000_0000_0000);
        assert(d.skip(1) =~= body);
        assert forall|c: char| c != '-' && !body.contains(c) implies !#[trigger] d.contains(c) by {
            if d.contains(c) {
                let i = choose|i: int| 0 <= i < d.len() && d[i] == c;
                if i > 0 {
                    assert(body[i - 1] == c);
                }
            }
        }
    } else {
        lemma_number(n as nat, 11, 0x7FFF_FFFF_FFFF_FFFF);
    }
}

proof fn lemma_object(o: environ::Object)
    ensures
        !environ::object_text(o).contains(','),
        entry(environ::object_text(o)) == Some(
            if o.pipe {
                (o.dev as i64, o.ino)
            } else {
                (0i64, 0u64)
            },
        ),
{
    let (dev, ino) = if o.pipe {
        (o.dev, o.ino)
    } else {
        (0i32, 0u64)
    };
    let t = environ::object_text(o);
    let d = environ::device(dev);
    let i = words::padded(ino as nat, 10, 20);
    lemma_device(dev);
    lemma_number(ino as nat, 20, u64::MAX as nat);
    let at = d.len() as int;
    assert(t == d + seq![':'] + i);
    assert forall|k: int| 0 <= k < at implies t[k] != ':' by {
        assert(t[k] == d[k]);
        assert(d.contains(d[k]));
    }
    assert(t[at] == ':');
    assert(text::first_at(t, ':', at));
    text::lemma_split_at_first(t, ':', at);
    assert(t.take(at) =~= d);
    assert(t.skip(at + 1) =~= i);
    if t.contains(',') {
        let k = choose|k: int| 0 <= k < t.len() && t[k] == ',';
        if k < at {
            assert(d[k] == ',');
        } else if k > at {
            assert(i[k - at - 1] == ',');
        }
    }
}

/// Entry `n` adds what it means.
proof fn lemma_entries(list: Seq<Seq<char>>, n: int, o: environ::Object)
    requires
        0 <= n < list.len(),
        entry(list[n]) == Some(
            if o.pipe {
                (o.dev as i64, o.ino)
            } else {
                (0i64, 0u64)
            },
        ),
    ensures
        entries(list, n + 1) == entries(list, n) + meant(o),
{
    let before = entries(list, n);
    assert(before + Seq::<(i64, u64)>::empty() =~= before);
    assert(before + seq![(o.dev as i64, o.ino)] =~= before.push((o.dev as i64, o.ino)));
}

/// A guest takes for outside the run just what its launcher said is: the
/// list of its descriptors reads back.
pub proof fn what_is_external_reads_back(
    a: environ::Object,
    b: environ::Object,
    c: environ::Object,
)
    ensures
        listed(environ::objects_text(a, b, c)) == meant(a) + meant(b) + meant(c),
{
    let (x, y, z) = (environ::object_text(a), environ::object_text(b), environ::object_text(c));
    lemma_object(a);
    lemma_object(b);
    lemma_object(c);
    let tail = y + seq![','] + z;
    assert(environ::objects_text(a, b, c) =~= x + seq![','] + tail);
    text::lemma_first_piece(x, ',', tail);
    text::lemma_first_piece(y, ',', z);
    text::lemma_no_separator(z, ',');
    let list = text::pieces(environ::objects_text(a, b, c), ',');
    assert(list =~= seq![x, y, z]);
    lemma_entries(list, 0, a);
    lemma_entries(list, 1, b);
    lemma_entries(list, 2, c);
    assert(Seq::<(i64, u64)>::empty() + meant(a) + meant(b) + meant(c) =~= meant(a) + meant(b)
        + meant(c));
}

/// What `fstat` says of a descriptor
#[derive(Debug, Clone, Copy, PartialEq, Eq, Structural)]
pub struct Stat {
    pub fifo: bool,
    pub socket: bool,
    pub dev: i64,
    pub ino: u64,
}

/// A kernel network socket: what a connection that left the virtual network
/// has. Its peer is outside the run, so it blocks for real. It has neither a
/// device nor an inode.
pub open spec fn is_kernel_network_socket(st: Stat) -> bool {
    st.socket && st.dev == 0 && st.ino == 0
}

/// A pipe or kernel socket whose other end is a guest's: its state only
/// changes when a guest acts, so waiting on it belongs in the scheduler.
pub open spec fn is_guests(st: Stat, external: Seq<(i64, u64)>) -> bool {
    (st.fifo || st.socket) && !is_kernel_network_socket(st) && !external.contains((st.dev, st.ino))
}

pub fn is_guest_object(st: &Stat, external: &Vec<(i64, u64)>) -> (r: bool)
    ensures
        r == is_guests(*st, external@),
{
    if !(st.fifo || st.socket) || st.socket && st.dev == 0 && st.ino == 0 {
        return false;
    }
    let mut i: usize = 0;
    while i < external.len()
        invariant
            i <= external@.len(),
            (st.fifo || st.socket) && !is_kernel_network_socket(*st),
            forall|k: int| 0 <= k < i ==> external@[k] != (st.dev, st.ino),
        decreases external@.len() - i,
    {
        if external[i].0 == st.dev && external[i].1 == st.ino {
            assert(external@[i as int] == (st.dev, st.ino));
            return false;
        }
        i += 1;
    }
    true
}

/// Whether a blocking call on a descriptor becomes a readiness wait: a guest
/// object in blocking mode, used by a scheduled thread
pub fn is_managed(scheduled: bool, nonblocking: bool, st: &Stat, external: &Vec<(i64, u64)>) -> (r:
    bool)
    ensures
        r == (scheduled && !nonblocking && is_guests(*st, external@)),
{
    scheduled && !nonblocking && is_guest_object(st, external)
}

/// What one attempt at a write came to
#[derive(Debug, Clone, Copy, PartialEq, Eq, Structural)]
pub enum Wrote {
    Bytes(usize),
    /// `EAGAIN`
    Full,
    /// `EINTR`
    Interrupted,
    Failed(Errno),
}

/// What follows
#[derive(Debug, Clone, Copy, PartialEq, Eq, Structural)]
pub enum Then {
    /// Someone who waits for what was written may go on. Try the rest.
    Wake,
    /// Park until there may be room.
    Park,
    Again,
    /// Wake, as after every write, and return so many bytes.
    Finish(usize),
    Return(usize),
    Fail(Errno),
}

/// A blocking write of a whole buffer, without holding the baton while the
/// object is full
#[derive(Debug, Clone, Copy, PartialEq, Eq, Structural)]
pub struct Writing {
    pub len: usize,
    pub done: usize,
}

impl Writing {
    pub open spec fn wf(self) -> bool {
        self.done <= self.len
    }

    pub fn new(len: usize) -> (r: Self)
        ensures
            r == (Writing { len, done: 0 }),
            r.wf(),
    {
        Writing { len, done: 0 }
    }

    /// There is nothing left to write.
    pub fn is_done(&self) -> (r: bool)
        ensures
            r == (self.done >= self.len),
    {
        self.done >= self.len
    }

    pub open spec fn next(self, w: Wrote) -> (Writing, Then) {
        match w {
            Wrote::Bytes(n) => if n == 0 {
                (self, Then::Return(self.done))
            } else {
                let after = Writing { done: (self.done + n) as usize, ..self };
                (
                    after,
                    if after.done >= self.len {
                        Then::Finish(after.done)
                    } else {
                        Then::Wake
                    },
                )
            },
            Wrote::Full => (self, Then::Park),
            Wrote::Interrupted => (self, Then::Again),
            Wrote::Failed(e) => (
                self,
                if self.done > 0 {
                    Then::Return(self.done)
                } else {
                    Then::Fail(e)
                },
            ),
        }
    }

    /// An attempt at the rest has come to `w`.
    pub fn step(&mut self, w: Wrote) -> (r: Then)
        requires
            old(self).wf(),
            w matches Wrote::Bytes(n) ==> n <= old(self).len - old(self).done,
        ensures
            final(self).wf(),
            (*final(self), r) == old(self).next(w),
    {
        match w {
            Wrote::Bytes(n) => {
                if n == 0 {
                    return Then::Return(self.done);
                }
                self.done = self.done + n;
                if self.done >= self.len {
                    Then::Finish(self.done)
                } else {
                    Then::Wake
                }
            },
            Wrote::Full => Then::Park,
            Wrote::Interrupted => Then::Again,
            Wrote::Failed(e) => if self.done > 0 {
                Then::Return(self.done)
            } else {
                Then::Fail(e)
            },
        }
    }
}

/// Whether the rest of a vector is gone on with
#[derive(Debug, Clone, Copy, PartialEq, Eq, Structural)]
pub enum Onward {
    Next,
    Return(usize),
    Fail(Errno),
}

/// A transfer of several buffers in order: it stops at the first that comes
/// up short.
#[derive(Debug, Clone, Copy, PartialEq, Eq, Structural)]
pub struct Vectored {
    pub total: usize,
}

impl Vectored {
    pub fn new() -> (r: Self)
        ensures
            r.total == 0,
    {
        Vectored { total: 0 }
    }

    /// The flags of the next receive: only the first buffer may wait for
    /// data.
    pub fn flags(&self) -> (r: i32)
        ensures
            r == (if self.total > 0 {
                MSG_DONTWAIT
            } else {
                0
            }),
    {
        if self.total > 0 {
            MSG_DONTWAIT
        } else {
            0
        }
    }

    pub open spec fn next(self, len: usize, got: Result<usize, Errno>) -> (Vectored, Onward) {
        match got {
            Err(e) => (
                self,
                if self.total > 0 {
                    Onward::Return(self.total)
                } else {
                    Onward::Fail(e)
                },
            ),
            Ok(n) => {
                let after = Vectored { total: (self.total + n) as usize };
                (
                    after,
                    if n < len {
                        Onward::Return(after.total)
                    } else {
                        Onward::Next
                    },
                )
            },
        }
    }

    /// The buffer of `len` bytes has come to `got`.
    pub fn step(&mut self, len: usize, got: Result<usize, Errno>) -> (r: Onward)
        requires
            got matches Ok(n) ==> old(self).total + n <= usize::MAX,
        ensures
            (*final(self), r) == old(self).next(len, got),
    {
        match got {
            Err(e) => if self.total > 0 {
                Onward::Return(self.total)
            } else {
                Onward::Fail(e)
            },
            Ok(n) => {
                self.total = self.total + n;
                if n < len {
                    Onward::Return(self.total)
                } else {
                    Onward::Next
                }
            },
        }
    }
}

/// How much of `total` bytes the first `n` buffers take
pub open spec fn reach(total: nat, lens: Seq<usize>, n: int) -> nat
    decreases n,
{
    if n <= 0 {
        0
    } else {
        let before = reach(total, lens, n - 1);
        if before + lens[n - 1] < total {
            before + lens[n - 1] as nat
        } else {
            total
        }
    }
}

proof fn lemma_reach(total: nat, lens: Seq<usize>, n: int)
    ensures
        reach(total, lens, n) <= total,
        n > 0 ==> reach(total, lens, n - 1) <= reach(total, lens, n),
    decreases n,
{
    if n > 0 {
        lemma_reach(total, lens, n - 1);
    }
}

/// What the first `n` buffers get of one datagram
pub open spec fn scattered(data: Seq<u8>, lens: Seq<usize>, n: int) -> Seq<Seq<u8>>
    decreases n,
{
    if n <= 0 {
        Seq::empty()
    } else {
        scattered(data, lens, n - 1).push(
            data.subrange(
                reach(data.len(), lens, n - 1) as int,
                reach(data.len(), lens, n) as int,
            ),
        )
    }
}

/// Spread one datagram over buffers in order: reading per buffer would take
/// a datagram each.
pub fn scatter(data: &[u8], lens: &Vec<usize>) -> (r: Vec<Vec<u8>>)
    ensures
        environ::held(r@) == scattered(data@, lens@, lens@.len() as int),
{
    let mut out: Vec<Vec<u8>> = Vec::new();
    assert(environ::held(out@) =~= Seq::empty());
    let mut at: usize = 0;
    let mut i: usize = 0;
    while i < lens.len()
        invariant
            i <= lens@.len(),
            at <= data@.len(),
            at == reach(data@.len(), lens@, i as int),
            environ::held(out@) == scattered(data@, lens@, i as int),
        decreases lens@.len() - i,
    {
        let left: usize = data.len() - at;
        let k: usize = if lens[i] < left {
            lens[i]
        } else {
            left
        };
        let ghost was = environ::held(out@);
        let piece = cut(data, at, at + k);
        out.push(piece);
        assert(environ::held(out@) =~= was.push(piece@));
        assert(at + k == reach(data@.len(), lens@, i + 1));
        at = at + k;
        i += 1;
    }
    out
}

/// The first `n` buffers one after the other
pub open spec fn gathered(parts: Seq<Seq<u8>>, n: int) -> Seq<u8>
    decreases n,
{
    if n <= 0 {
        Seq::empty()
    } else {
        gathered(parts, n - 1) + parts[n - 1]
    }
}

/// One datagram of several buffers
pub fn gather(parts: &Vec<Vec<u8>>) -> (r: Vec<u8>)
    ensures
        r@ == gathered(environ::held(parts@), parts@.len() as int),
{
    let ghost all = environ::held(parts@);
    let mut out: Vec<u8> = Vec::new();
    let mut i: usize = 0;
    while i < parts.len()
        invariant
            i <= parts@.len(),
            all == environ::held(parts@),
            out@ == gathered(all, i as int),
        decreases parts@.len() - i,
    {
        assert(all[i as int] == parts@[i as int]@);
        let mut p = cut(parts[i].as_slice(), 0, parts[i].len());
        assert(p@ =~= parts@[i as int]@);
        out.append(&mut p);
        i += 1;
    }
    out
}

/// What was scattered over buffers and gathered again is the datagram, as
/// far as the buffers reach.
pub proof fn what_is_scattered_is_gathered(data: Seq<u8>, lens: Seq<usize>, n: int)
    requires
        0 <= n <= lens.len(),
    ensures
        gathered(scattered(data, lens, n), n) == data.take(reach(data.len(), lens, n) as int),
        scattered(data, lens, n).len() == n,
    decreases n,
{
    if n == 0 {
        assert(data.take(0) =~= Seq::empty());
    } else {
        what_is_scattered_is_gathered(data, lens, n - 1);
        lemma_reach(data.len(), lens, n);
        lemma_reach(data.len(), lens, n - 1);
        let parts = scattered(data, lens, n);
        let before = scattered(data, lens, n - 1);
        lemma_gathered(parts, before, n - 1);
        let (from, to) = (reach(data.len(), lens, n - 1) as int, reach(data.len(), lens, n) as int);
        assert(parts[n - 1] == data.subrange(from, to));
        assert(data.take(from) + data.subrange(from, to) =~= data.take(to));
    }
}

proof fn lemma_gathered(a: Seq<Seq<u8>>, b: Seq<Seq<u8>>, n: int)
    requires
        n <= a.len(),
        n <= b.len(),
        forall|i: int| 0 <= i < n ==> #[trigger] a[i] == b[i],
    ensures
        gathered(a, n) == gathered(b, n),
    decreases n,
{
    if n > 0 {
        lemma_gathered(a, b, n - 1);
        assert(a[n - 1] == b[n - 1]);
    }
}

/// What names a socket of the virtual network: the kernel's socket that
/// stands in for it is anonymous, and its inode is its alone.
pub fn ident_of(st: &Stat) -> (r: Option<u64>)
    ensures
        r == (if st.socket && st.dev == -1 && st.ino != 0 {
            Some(st.ino)
        } else {
            None
        }),
{
    if st.socket && st.dev == -1 && st.ino != 0 {
        Some(st.ino)
    } else {
        None
    }
}

/// How a `close` is made
#[derive(Debug, Clone, Copy, PartialEq, Eq, Structural)]
pub enum Closing {
    /// "Close everything above 2" must not take the launcher's socket:
    /// spawning needs it.
    Ignore,
    /// The descriptor of a socket of the virtual network
    Virtual(u32),
    Kernel,
}

pub fn closing(fd: i32, connected: bool, sock: Option<u32>) -> (r: Closing)
    ensures
        r == (if fd == COORD_FD && connected {
            Closing::Ignore
        } else {
            match sock {
                Some(s) => Closing::Virtual(s),
                None => Closing::Kernel,
            }
        }),
{
    if fd == COORD_FD && connected {
        return Closing::Ignore;
    }
    match sock {
        Some(s) => Closing::Virtual(s),
        None => Closing::Kernel,
    }
}

/// What a call on descriptors changes in the network, and whom it wakes
#[derive(Debug, Clone, Copy, PartialEq, Eq, Structural)]
pub struct Changed {
    /// A descriptor more refers to this socket.
    pub held: Option<u32>,
    /// One fewer refers to this one.
    pub dropped: Option<u32>,
    /// The I/O waiters look again: the last writer closing is a reader's
    /// end of file, and a closed file gives up its locks.
    pub wake: bool,
}

impl Closing {
    /// After the kernel's `close`
    pub fn after(&self, succeeded: bool, scheduled: bool) -> (r: Changed)
        ensures
            r == (match *self {
                Closing::Ignore => Changed { held: None, dropped: None, wake: false },
                Closing::Virtual(s) => Changed {
                    held: None,
                    dropped: if succeeded {
                        Some(s)
                    } else {
                        None
                    },
                    wake: false,
                },
                Closing::Kernel => Changed { held: None, dropped: None, wake: scheduled },
            }),
    {
        match *self {
            Closing::Ignore => Changed { held: None, dropped: None, wake: false },
            Closing::Virtual(s) => Changed {
                held: None,
                dropped: if succeeded {
                    Some(s)
                } else {
                    None
                },
                wake: false,
            },
            Closing::Kernel => Changed { held: None, dropped: None, wake: scheduled },
        }
    }
}

/// After `dup2(fd, target)`: `sock` is the socket of `fd`, and `replaced`
/// that of `target` before the call. A descriptor put over itself changes
/// nothing.
pub fn put_over(
    fd: i32,
    target: i32,
    succeeded: bool,
    sock: Option<u32>,
    replaced: Option<u32>,
) -> (r: Changed)
    ensures
        r == (if succeeded && fd != target {
            Changed { held: sock, dropped: replaced, wake: false }
        } else {
            Changed { held: None, dropped: None, wake: false }
        }),
{
    if succeeded && fd != target {
        Changed { held: sock, dropped: replaced, wake: false }
    } else {
        Changed { held: None, dropped: None, wake: false }
    }
}

/// A write goes on until all is written: it finishes with its last byte and not
/// before, parks where there is no room, and reports a failure only where
/// nothing was written.
pub proof fn a_write_goes_on_to_its_end(w: Writing, n: usize, e: Errno)
    requires
        w.wf(),
        0 < n <= w.len - w.done,
    ensures
        w.next(Wrote::Bytes(n)).0.done == w.done + n,
        w.next(Wrote::Bytes(n)).0.len == w.len,
        w.done + n == w.len ==> w.next(Wrote::Bytes(n)).1 == Then::Finish(w.len),
        w.done + n < w.len ==> w.next(Wrote::Bytes(n)).1 == Then::Wake,
        w.next(Wrote::Full) == (w, Then::Park),
        w.next(Wrote::Interrupted) == (w, Then::Again),
        w.done > 0 ==> w.next(Wrote::Failed(e)) == (w, Then::Return(w.done)),
        w.done == 0 ==> w.next(Wrote::Failed(e)) == (w, Then::Fail(e)),
        w.next(Wrote::Bytes(0)) == (w, Then::Return(w.done)),
{
}

/// A call over several buffers goes on while each is filled, returns what there
/// is at the first that is not, and reports a failure only where nothing was
/// moved.
pub proof fn a_vector_goes_on_while_it_is_full(v: Vectored, len: usize, n: usize, e: Errno)
    requires
        v.total + n <= usize::MAX,
        n <= len,
    ensures
        v.next(len, Ok(n)).0.total == v.total + n,
        n == len ==> v.next(len, Ok(n)).1 == Onward::Next,
        n < len ==> v.next(len, Ok(n)).1 == Onward::Return((v.total + n) as usize),
        v.total > 0 ==> v.next(len, Err(e)) == (v, Onward::Return(v.total)),
        v.total == 0 ==> v.next(len, Err(e)) == (v, Onward::Fail(e)),
{
}

/// No buffer gets more than it holds, and each is full before the next gets
/// anything.
pub proof fn buffers_are_filled_in_order(data: Seq<u8>, lens: Seq<usize>, n: int, i: int)
    requires
        0 <= i < n <= lens.len(),
    ensures
        scattered(data, lens, n).len() == n,
        scattered(data, lens, n)[i].len() <= lens[i],
        scattered(data, lens, n)[i].len() < lens[i] ==> reach(data.len(), lens, i + 1)
            == data.len(),
        scattered(data, lens, n)[i] == data.subrange(
            reach(data.len(), lens, i) as int,
            reach(data.len(), lens, i + 1) as int,
        ),
    decreases n,
{
    lemma_reach_bound(data.len(), lens, i);
    lemma_reach_bound(data.len(), lens, i + 1);
    if i < n - 1 {
        buffers_are_filled_in_order(data, lens, n - 1, i);
    } else {
        lemma_scattered_len(data, lens, n - 1);
    }
}

proof fn lemma_scattered_len(data: Seq<u8>, lens: Seq<usize>, n: int)
    requires
        0 <= n,
    ensures
        scattered(data, lens, n).len() == n,
    decreases n,
{
    if n > 0 {
        lemma_scattered_len(data, lens, n - 1);
    }
}

proof fn lemma_reach_bound(total: nat, lens: Seq<usize>, n: int)
    ensures
        reach(total, lens, n) <= total,
    decreases n,
{
    if n > 0 {
        lemma_reach_bound(total, lens, n - 1);
    }
}

/// What is between guests is a pipe or a socket that is neither the kernel's own
/// network's nor one of those that came from outside.
pub proof fn what_is_between_guests(st: Stat, external: Seq<(i64, u64)>)
    ensures
        is_guests(st, external) ==> st.fifo || st.socket,
        external.contains((st.dev, st.ino)) ==> !is_guests(st, external),
        st.fifo && !st.socket && !external.contains((st.dev, st.ino)) ==> is_guests(st, external),
        st.socket && (st.dev != 0 || st.ino != 0) && !external.contains((st.dev, st.ino))
            ==> is_guests(st, external),
        st.socket && st.dev == 0 && st.ino == 0 ==> !is_guests(st, external),
{
}

} // verus!
