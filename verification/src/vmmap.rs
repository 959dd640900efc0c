//! Where a scheduled thread's mappings land is the run's to decide. The
//! kernel places an "anywhere" mapping first-fit in the address space as
//! it stands, and threads outside the schedule change what stands there at
//! moments of real time. A thread's stack address is its identity to code
//! that hashes `pthread_self`, so a run whose thread stacks moved is another
//! run.
//!
//! So a region of address space is reserved at start-up, and mapping
//! requests scheduled threads make without an address are placed in it in
//! the order the schedule makes them: first fit among what was given back,
//! else the next unused stretch. A region that is used up falls back to the
//! kernel.

use vstd::prelude::*;

verus! {

pub const BASE: u64 = 0x7C_0000_0000;

pub const SIZE: u64 = 0x10_0000_0000;

pub const PAGE: u64 = 0x4000;

pub const VM_FLAGS_ANYWHERE: i32 = 1;

pub const VM_FLAGS_OVERWRITE: i32 = 0x4000;

/// A length in whole pages
pub open spec fn rounded_up(v: int) -> int {
    (v + PAGE - 1) / (PAGE as int) * PAGE
}

pub fn round_up(v: u64) -> (r: u64)
    requires
        v + PAGE - 1 <= u64::MAX,
    ensures
        r == rounded_up(v as int),
{
    (v + (PAGE - 1)) / PAGE * PAGE
}

pub fn in_region(addr: u64) -> (r: bool)
    ensures
        r == (BASE <= addr < BASE + SIZE),
{
    BASE <= addr && addr < BASE + SIZE
}

/// A mapping request that asks for no address: its task is this one, its
/// flags let the kernel choose, and a page is aligned enough for it.
pub fn places(own_task: bool, flags: i32, mask: u64) -> (r: bool)
    ensures
        r == (own_task && flags & VM_FLAGS_ANYWHERE != 0 && mask < PAGE),
{
    own_task && flags & VM_FLAGS_ANYWHERE != 0 && mask < PAGE
}

pub const MAP_FIXED: i32 = 0x10;

/// Where an `mmap` goes
#[derive(Debug, Clone, Copy, PartialEq, Eq, Structural)]
pub enum Mapping {
    Kernel,
    /// Into the region. An address that is only a hint does not count: the
    /// kernel would grant it or not by whether it has freed an exited
    /// thread's stack yet, in real time.
    Region { hinted: bool },
}

pub fn mapping(addr: u64, flags: i32) -> (r: Mapping)
    ensures
        r == (if flags & MAP_FIXED != 0 {
            Mapping::Kernel
        } else {
            Mapping::Region { hinted: addr != 0 }
        }),
{
    if flags & MAP_FIXED != 0 {
        Mapping::Kernel
    } else {
        Mapping::Region { hinted: addr != 0 }
    }
}

/// The flags of a request that was given an address
pub fn placed_flags(flags: i32) -> (r: i32)
    ensures
        r == (flags & !VM_FLAGS_ANYWHERE) | VM_FLAGS_OVERWRITE,
{
    (flags & !VM_FLAGS_ANYWHERE) | VM_FLAGS_OVERWRITE
}

pub struct Region {
    /// First address never handed out
    next: u64,
    /// Stretches given back, `(address, length)`
    free: Vec<(u64, u64)>,
    /// Requests the region could not take
    overflowed: u64,
}

pub struct RegionView {
    pub next: u64,
    pub free: Seq<(u64, u64)>,
    pub overflowed: u64,
}

impl View for Region {
    type V = RegionView;

    closed spec fn view(&self) -> RegionView {
        RegionView { next: self.next, free: self.free@, overflowed: self.overflowed }
    }
}

/// `x` is in the stretch.
pub open spec fn within(stretch: (u64, u64), x: int) -> bool {
    stretch.0 <= x < stretch.0 + stretch.1
}

/// The first stretch from `i` on that is long enough
pub open spec fn first_fit(free: Seq<(u64, u64)>, len: u64, i: int) -> Option<int>
    decreases free.len() - i,
{
    if i < 0 || i >= free.len() {
        None
    } else if free[i].1 >= len {
        Some(i)
    } else {
        first_fit(free, len, i + 1)
    }
}

pub proof fn lemma_first_fit(free: Seq<(u64, u64)>, len: u64, i: int)
    ensures
        first_fit(free, len, i) matches Some(k) ==> i <= k < free.len() && 0 <= k && free[k].1
            >= len,
    decreases free.len() - i,
{
    if 0 <= i < free.len() && free[i].1 < len {
        lemma_first_fit(free, len, i + 1);
    }
}

impl RegionView {
    /// Every stretch ends in the address space, and `next` in the region.
    pub open spec fn wf(self) -> bool {
        &&& BASE <= self.next <= BASE + SIZE
        &&& forall|i: int|
            #![trigger self.free[i]]
            0 <= i < self.free.len() ==> self.free[i].0 + self.free[i].1 <= u64::MAX
    }

    /// No stretch that was given back reaches what was never handed out or
    /// another stretch.
    pub open spec fn apart(self) -> bool {
        &&& forall|i: int, x: int|
            0 <= i < self.free.len() && #[trigger] within(self.free[i], x) ==> x < self.next
        &&& forall|i: int, j: int, x: int|
            0 <= i < self.free.len() && 0 <= j < self.free.len() && #[trigger] within(
                self.free[i],
                x,
            ) && #[trigger] within(self.free[j], x) ==> i == j
    }

    /// `x` can be handed out.
    pub open spec fn available(self, x: int) -> bool {
        ||| self.next <= x < BASE + SIZE
        ||| exists|i: int| 0 <= i < self.free.len() && #[trigger] within(self.free[i], x)
    }

    /// Where a stretch of `len` bytes goes, and the region after it
    pub open spec fn taken(self, len: u64) -> (Option<u64>, RegionView) {
        match first_fit(self.free, len, 0) {
            Some(i) => {
                let (addr, l) = self.free[i];
                let free = if l == len {
                    self.free.remove(i)
                } else {
                    self.free.update(i, ((addr + len) as u64, (l - len) as u64))
                };
                (Some(addr), RegionView { free, ..self })
            },
            None => if self.next + len > BASE + SIZE {
                (None, RegionView { overflowed: self.overflowed.wrapping_add(1), ..self })
            } else {
                (Some(self.next), RegionView { next: (self.next + len) as u64, ..self })
            },
        }
    }

    pub open spec fn given_back(self, addr: u64, len: u64) -> RegionView {
        RegionView { free: self.free.push((addr, len)), ..self }
    }
}

impl Region {
    pub fn new() -> (r: Self)
        ensures
            r@ == (RegionView { next: BASE, free: Seq::empty(), overflowed: 0 }),
            r@.wf(),
    {
        Region { next: BASE, free: Vec::new(), overflowed: 0 }
    }

    /// Requests the region could not take
    pub fn overflowed(&self) -> (r: u64)
        ensures
            r == self@.overflowed,
    {
        self.overflowed
    }

    fn fit(&self, len: u64) -> (r: Option<usize>)
        ensures
            match r {
                Some(i) => i < self@.free.len() && first_fit(self@.free, len, 0) == Some(i as int),
                None => first_fit(self@.free, len, 0) is None,
            },
    {
        let mut i: usize = 0;
        while i < self.free.len()
            invariant
                i <= self@.free.len(),
                self@.free == self.free@,
                first_fit(self@.free, len, 0) == first_fit(self@.free, len, i as int),
            decreases self.free.len() - i,
        {
            if self.free[i].1 >= len {
                return Some(i);
            }
            i += 1;
        }
        None
    }

    /// A stretch of `len` bytes (page-rounded), if the region has room
    pub fn take(&mut self, len: u64) -> (r: Option<u64>)
        requires
            old(self)@.wf(),
        ensures
            final(self)@.wf(),
            (r, final(self)@) == old(self)@.taken(len),
    {
        proof {
            lemma_first_fit(self@.free, len, 0);
        }
        if let Some(i) = self.fit(len) {
            let (addr, l) = self.free[i];
            assert(self@.free[i as int].0 + self@.free[i as int].1 <= u64::MAX);
            if l == len {
                self.free.remove(i);
            } else {
                self.free.set(i, (addr + len, l - len));
            }
            return Some(addr);
        }
        if len > BASE + SIZE - self.next {
            self.overflowed = self.overflowed.wrapping_add(1);
            return None;
        }
        let addr: u64 = self.next;
        self.next = self.next + len;
        Some(addr)
    }

    /// `[addr, addr + len)` is unmapped: let the schedule reuse it, if it
    /// was a scheduled thread that let go. A thread outside the schedule
    /// does so at a moment of real time, and its stretch is not reused.
    pub fn give_back(&mut self, addr: u64, len: u64, scheduled: bool)
        requires
            old(self)@.wf(),
            addr + len <= u64::MAX,
        ensures
            final(self)@.wf(),
            final(self)@ == (if scheduled {
                old(self)@.given_back(addr, len)
            } else {
                old(self)@
            }),
    {
        if scheduled {
            self.free.push((addr, len));
            proof {
                let before = old(self)@;
                assert forall|i: int|
                    #![trigger self@.free[i]]
                    0 <= i < self@.free.len() implies self@.free[i].0 + self@.free[i].1
                    <= u64::MAX by {
                    if i < before.free.len() {
                        assert(self@.free[i] == before.free[i]);
                    }
                }
            }
        }
    }
}

/// A stretch is handed out once: what is taken was available as a whole, is
/// not available any more, and nothing else changes.
pub proof fn a_stretch_is_handed_out_once(r: RegionView, len: u64)
    requires
        r.wf(),
        r.apart(),
    ensures
        r.taken(len).1.apart(),
        match r.taken(len).0 {
            Some(addr) => {
                &&& forall|x: int| #[trigger] within((addr, len), x) ==> r.available(x)
                &&& forall|x: int|
                    #[trigger] r.taken(len).1.available(x) == (r.available(x) && !within(
                        (addr, len),
                        x,
                    ))
            },
            None => forall|x: int| #[trigger] r.taken(len).1.available(x) == r.available(x),
        },
{
    lemma_first_fit(r.free, len, 0);
    let after = r.taken(len).1;
    match first_fit(r.free, len, 0) {
        Some(k) => {
            let (addr, l) = r.free[k];
            assert forall|x: int| #[trigger] within((addr, len), x) implies r.available(x) by {
                assert(within(r.free[k], x));
            }
            // Which stretch of before a stretch of after lies in
            let source = |i: int| if l == len && i >= k {
                i + 1
            } else {
                i
            };
            assert forall|i: int, x: int|
                0 <= i < after.free.len() && #[trigger] within(after.free[i], x) implies within(
                r.free[source(i)],
                x,
            ) && !within((addr, len), x) by {
                if i == k && l != len {
                    assert(within(r.free[k], x));
                } else {
                    assert(after.free[i] == r.free[source(i)]);
                    if within((addr, len), x) {
                        assert(within(r.free[k], x));
                    }
                }
            }
            assert forall|i: int, j: int, x: int|
                0 <= i < after.free.len() && 0 <= j < after.free.len() && #[trigger] within(
                    after.free[i],
                    x,
                ) && #[trigger] within(after.free[j], x) implies i == j by {
                assert(within(r.free[source(i)], x) && within(r.free[source(j)], x));
            }
            assert forall|x: int| #[trigger] after.available(x) == (r.available(x) && !within(
                (addr, len),
                x,
            )) by {
                if after.available(x) {
                    if after.next <= x < BASE + SIZE {
                        if within((addr, len), x) {
                            assert(within(r.free[k], x));
                        }
                    } else {
                        let i = choose|i: int|
                            0 <= i < after.free.len() && #[trigger] within(after.free[i], x);
                        assert(within(r.free[source(i)], x));
                    }
                }
                if r.available(x) && !within((addr, len), x) && !(r.next <= x < BASE + SIZE) {
                    let i = choose|i: int|
                        0 <= i < r.free.len() && #[trigger] within(r.free[i], x);
                    let at = if l == len && i > k {
                        i - 1
                    } else {
                        i
                    };
                    assert(within(after.free[at], x));
                }
            }
        },
        None => {
            if r.next + len <= BASE + SIZE {
                let addr = r.next;
                assert forall|x: int| #[trigger] after.available(x) == (r.available(x) && !within(
                    (addr, len),
                    x,
                )) by {
                    if after.available(x) && !(after.next <= x < BASE + SIZE) {
                        let i = choose|i: int|
                            0 <= i < after.free.len() && #[trigger] within(after.free[i], x);
                        assert(within(r.free[i], x));
                    }
                    if r.available(x) && !(r.next <= x < BASE + SIZE) {
                        let i = choose|i: int|
                            0 <= i < r.free.len() && #[trigger] within(r.free[i], x);
                        assert(within(after.free[i], x));
                    }
                }
            } else {
                assert forall|x: int| #[trigger] after.available(x) == r.available(x) by {
                    assert(after.free == r.free && after.next == r.next);
                }
            }
        },
    }
}

/// What is given back can be taken again, and nothing else becomes
/// available. The stretches stay apart where it was one that was taken.
pub proof fn what_is_given_back_is_available(r: RegionView, addr: u64, len: u64)
    requires
        r.apart(),
        addr + len <= r.next,
        forall|x: int| #[trigger] within((addr, len), x) ==> !r.available(x),
    ensures
        r.given_back(addr, len).apart(),
        forall|x: int|
            #[trigger] r.given_back(addr, len).available(x) == (r.available(x) || within(
                (addr, len),
                x,
            )),
{
    let after = r.given_back(addr, len);
    let n = r.free.len() as int;
    assert(after.free[n] == (addr, len));
    assert forall|i: int, x: int|
        0 <= i < n && #[trigger] within(after.free[i], x) implies r.available(x) && within(
        r.free[i],
        x,
    ) by {
        assert(within(r.free[i], x));
    }
    assert forall|i: int, j: int, x: int|
        0 <= i < after.free.len() && 0 <= j < after.free.len() && #[trigger] within(
            after.free[i],
            x,
        ) && #[trigger] within(after.free[j], x) implies i == j by {
        if i < n && j < n {
            assert(within(r.free[i], x) && within(r.free[j], x));
        }
    }
    assert forall|x: int| #[trigger] after.available(x) == (r.available(x) || within(
        (addr, len),
        x,
    )) by {
        if r.available(x) && !(r.next <= x < BASE + SIZE) {
            let i = choose|i: int| 0 <= i < n && #[trigger] within(r.free[i], x);
            assert(within(after.free[i], x));
        }
        if within((addr, len), x) {
            assert(within(after.free[n], x));
        }
        if after.available(x) && !(r.next <= x < BASE + SIZE) {
            let i = choose|i: int| 0 <= i < after.free.len() && #[trigger] within(after.free[i], x);
            if i < n {
                assert(within(r.free[i], x));
            }
        }
    }
}

/// A request is met wherever there is a stretch for it: one that was given
/// back and is long enough, or what was never handed out. It is refused only
/// where there is neither, which is counted.
pub proof fn a_request_is_met_where_there_is_room(r: RegionView, len: u64, i: int)
    requires
        r.wf(),
    ensures
        0 <= i < r.free.len() && r.free[i].1 >= len ==> r.taken(len).0 is Some,
        r.next + len <= BASE + SIZE ==> r.taken(len).0 is Some,
        r.taken(len).0 is None ==> r.taken(len).1.overflowed == r.overflowed.wrapping_add(1),
        r.taken(len).0 is Some ==> r.taken(len).1.overflowed == r.overflowed,
        r.taken(len).0 is Some && (forall|k: int|
            0 <= k < r.free.len() ==> (#[trigger] r.free[k]).1 < len) ==> r.taken(len).0 == Some(
            r.next,
        ) && r.next + len <= BASE + SIZE,
{
    lemma_first_fit(r.free, len, 0);
    if 0 <= i < r.free.len() && r.free[i].1 >= len {
        lemma_some_fit(r.free, len, 0, i);
    }
}

proof fn lemma_some_fit(free: Seq<(u64, u64)>, len: u64, from: int, i: int)
    requires
        0 <= from <= i < free.len(),
        free[i].1 >= len,
    ensures
        first_fit(free, len, from) is Some,
    decreases i - from,
{
    if free[from].1 < len {
        lemma_some_fit(free, len, from + 1, i);
    }
}

} // verus!
