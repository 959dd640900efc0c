//! Deterministic allocator behind the interposed `malloc` family. Heap
//! layout is a function of the call sequence and the seed alone: one region
//! at a fixed address, handed out block by block. The system's allocator
//! would otherwise make addresses depend on the core a thread happened to
//! run on.
//!
//! Without a seed the layout is compact: blocks follow each other, and a
//! freed block is the next one of its class. A seeded heap hands the region
//! out in slabs at drawn places, and each block is drawn from candidates of
//! its class, so that no order of addresses is to be relied on.
//!
//! The heap decides where blocks go; it never touches the memory.

use vstd::prelude::*;
use std::collections::HashMap;
use crate::rng;
use crate::rng::Rng;

pub mod calls;
pub mod laws;
pub mod room;

verus! {

/// Bytes below the payload that are the heap's own
pub const HEADER: u64 = 16;

/// Small classes are multiples of 16 up to this size
pub const SMALL_MAX: u64 = 1024;

pub const N_SMALL: usize = 64;

/// How many classes there are: the small ones, and powers of two from 2 KB
/// to 1 MB
pub const CLASSES: usize = 74;

pub const PAGE: u64 = 0x4000;

/// A seeded heap hands out the region in slabs of this size
pub const SLAB: u64 = 0x1_0000;

/// Slabs for the pooled classes come from a window at one end of the region
/// (which end is the seed's choice) and runs from the rest: small blocks
/// scattered all over would leave no long runs free.
pub const WINDOW: u64 = 0x10_0000_0000;

/// Blocks a seeded heap chooses among, per class
pub const POOL: usize = 32;

/// Classes whose blocks fit a slab: the small ones, and 2 KB to 64 KB
pub const N_POOLED: usize = 70;

/// Address space only: pages are touched as blocks are. Large, because a
/// seeded layout scatters what it hands out.
pub const REGION_SIZE: u64 = 0x100_0000_0000;

/// The size of the blocks of a class
pub open spec fn class_size(c: int) -> int {
    if c < 64 {
        16 * (c + 1)
    } else if c == 64 {
        0x800
    } else if c == 65 {
        0x1000
    } else if c == 66 {
        0x2000
    } else if c == 67 {
        0x4000
    } else if c == 68 {
        0x8000
    } else if c == 69 {
        0x1_0000
    } else if c == 70 {
        0x2_0000
    } else if c == 71 {
        0x4_0000
    } else if c == 72 {
        0x8_0000
    } else {
        0x10_0000
    }
}

/// The first class from `c` on whose blocks hold `n` bytes
pub open spec fn class_from(n: int, c: int) -> Option<int>
    decreases 74 - c,
{
    if c >= 74 {
        None
    } else if n <= class_size(c) {
        Some(c)
    } else {
        class_from(n, c + 1)
    }
}

/// `n` rounded up to a multiple of `unit`
pub open spec fn up(n: int, unit: int) -> int {
    (n + unit - 1) / unit * unit
}

/// The class and size of a raw block of at least `n` bytes: of the first
/// class that fits, or whole pages. None for a size no block can have.
pub open spec fn class_of(n: int) -> Option<(Option<int>, int)> {
    if n <= SMALL_MAX {
        let k = if n < 1 {
            1
        } else {
            (n + 15) / 16
        };
        Some((Some(k - 1), 16 * k))
    } else {
        match class_from(n, 64) {
            Some(c) => Some((Some(c), class_size(c))),
            None => if up(n, PAGE as int) <= u64::MAX {
                Some((None, up(n, PAGE as int)))
            } else {
                None
            },
        }
    }
}

/// A class and the size of its blocks
pub fn class_for(raw_size: u64) -> (r: Option<(Option<usize>, u64)>)
    ensures
        match r {
            Some((Some(c), size)) => c < CLASSES && class_of(raw_size as int) == Some(
                (Some(c as int), size as int),
            ),
            Some((None, size)) => class_of(raw_size as int) == Some((None::<int>, size as int)),
            None => class_of(raw_size as int) is None,
        },
{
    if raw_size <= SMALL_MAX {
        let k: u64 = if raw_size < 1 {
            1
        } else {
            (raw_size + 15) / 16
        };
        return Some((Some((k - 1) as usize), 16 * k));
    }
    let mut c: usize = N_SMALL;
    let mut size: u64 = 0x800;
    while c < CLASSES
        invariant
            N_SMALL <= c <= CLASSES,
            c < CLASSES ==> size == class_size(c as int),
            size <= 0x20_0000,
            raw_size > SMALL_MAX,
            class_from(raw_size as int, 64) == class_from(raw_size as int, c as int),
        decreases CLASSES - c,
    {
        if raw_size <= size {
            return Some((Some(c), size));
        }
        size = 2 * size;
        c += 1;
    }
    let pages: u64 = raw_size / PAGE + if raw_size % PAGE == 0 {
        0
    } else {
        1
    };
    assert(pages * PAGE == up(raw_size as int, PAGE as int));
    if pages > u64::MAX / PAGE {
        None
    } else {
        Some((None, pages * PAGE))
    }
}

/// What `malloc_good_size` says: the whole of the block that such a request
/// would get
pub fn good_size(size: u64) -> (r: u64)
    ensures
        ({
            let asked = if size < 1 {
                1
            } else {
                size as int
            };
            r == (if asked + HEADER > u64::MAX {
                size as int
            } else {
                match class_of(asked + HEADER) {
                    Some((_, class)) => class - HEADER,
                    None => size as int,
                }
            })
        }),
{
    let asked: u64 = if size < 1 {
        1
    } else {
        size
    };
    if asked > u64::MAX - HEADER {
        return size;
    }
    proof {
        lemma_class_of(asked + HEADER);
    }
    match class_for(asked + HEADER) {
        Some((_, class)) => class - HEADER,
        None => size,
    }
}

/// A block of at least `n` bytes holds them, and its size is its own
/// class's.
pub proof fn lemma_class_of(n: int)
    requires
        0 <= n <= u64::MAX,
    ensures
        class_of(n) matches Some((c, size)) ==> {
            &&& n <= size <= u64::MAX
            &&& 16 <= size
            &&& size % 16 == 0
            &&& class_of(size) == Some((c, size))
            &&& match c {
                Some(k) => 0 <= k < CLASSES && size == class_size(k),
                None => size > 0x10_0000 && size % (PAGE as int) == 0,
            }
        },
{
    if n > SMALL_MAX {
        reveal_with_fuel(class_from, 12);
        if class_from(n, 64) is None {
            let p = up(n, PAGE as int);
            assert(p % (PAGE as int) == 0 && n <= p);
            assert(up(p, PAGE as int) == p);
        }
    }
}

/// Whether `realloc` leaves a block where it is: it is large enough, and not
/// more than twice what is wanted
pub fn stays(usable: u64, size: u64) -> (r: bool)
    ensures
        r == (usable / 2 <= size <= usable),
{
    size <= usable && size >= usable / 2
}

/// A power of two that a pointer fits in
pub open spec fn aligns(align: u64) -> bool {
    align >= 8 && exists|k: nat| k < 64 && align == #[trigger] vstd::arithmetic::power2::pow2(k)
}

/// An alignment that `posix_memalign` takes: a power of two that a pointer
/// is aligned to
pub fn is_alignment(align: u64) -> (r: bool)
    ensures
        r == aligns(align),
{
    let mut p: u64 = 1;
    let mut k: u64 = 0;
    proof {
        vstd::arithmetic::power2::lemma2_to64();
            vstd::arithmetic::power2::lemma2_to64_rest();
    }
    while k < 63
        invariant
            k <= 63,
            p == vstd::arithmetic::power2::pow2(k as nat),
            forall|j: nat| j < k ==> align != #[trigger] vstd::arithmetic::power2::pow2(j),
        decreases 63 - k,
    {
        if p == align {
            assert(align == vstd::arithmetic::power2::pow2(k as nat));
            return align >= 8;
        }
        proof {
            vstd::arithmetic::power2::lemma2_to64();
            vstd::arithmetic::power2::lemma2_to64_rest();
            vstd::arithmetic::power2::lemma_pow2_strictly_increases(k as nat, 63);
            vstd::arithmetic::power2::lemma_pow2_unfold((k + 1) as nat);
        }
        p = 2 * p;
        k += 1;
    }
    if p == align {
        assert(align == vstd::arithmetic::power2::pow2(63));
    }
    p == align && align >= 8
}

#[verifier::ext_equal]
pub struct HeapView {
    /// Where the region is; 0 before there is one
    pub base: u64,
    pub size: u64,
    /// Seeded before the first scheduled thread allocates; none keeps the
    /// compact layout
    pub rng: Option<Seq<u64>>,
    /// Which slabs are taken
    pub slabs: Seq<bool>,
    /// First slab and length in slabs of the pooled classes' window
    pub window: (u64, u64),
    /// Candidates to draw from, per class
    pub pools: Seq<Seq<u64>>,
    /// Free blocks per class; the last is the next
    pub lists: Seq<Seq<u64>>,
    /// Free blocks of whole pages, with their sizes
    pub huge: Seq<(u64, u64)>,
    /// First address never handed out, in a compact layout
    pub bump: u64,
    /// The blocks in use by their payloads: where the raw block starts and
    /// how big it is
    pub blocks: Map<u64, (u64, u64)>,
}

/// What a seeded heap's slab run begins with: none of `n` slabs is taken.
pub open spec fn is_free(slabs: Seq<bool>, at: int, n: int) -> bool {
    forall|i: int| at <= i < at + n ==> !#[trigger] slabs[i]
}

/// With `n` slabs marked
pub open spec fn marked(slabs: Seq<bool>, at: int, n: int, taken: bool) -> Seq<bool> {
    Seq::new(
        slabs.len(),
        |i: int|
            if at <= i < at + n {
                taken
            } else {
                slabs[i]
            },
    )
}

/// The place of draw number `i`
pub open spec fn drawn_at(s: Seq<u64>, first: int, last: int, i: nat) -> int {
    first + rng::scaled(rng::output(rng::state_after(s, i)), (last + 1) as u64)
}

/// The first of the draws from number `i` on at which there is room
pub open spec fn try_from(slabs: Seq<bool>, s: Seq<u64>, first: int, last: int, n: int, i: nat)
    -> Option<int>
    decreases 16 - i,
{
    if i >= 16 {
        None
    } else if is_free(slabs, drawn_at(s, first, last, i), n) {
        Some(drawn_at(s, first, last, i))
    } else {
        try_from(slabs, s, first, last, n, i + 1)
    }
}

/// The first place with room, `k` places on from `start`
pub open spec fn fit_from(slabs: Seq<bool>, first: int, last: int, n: int, start: int, k: int)
    -> Option<int>
    decreases last + 1 - k,
{
    if k > last {
        None
    } else {
        let at = first + (start + k) % (last + 1);
        if is_free(slabs, at, n) {
            Some(at)
        } else {
            fit_from(slabs, first, last, n, start, k + 1)
        }
    }
}

/// The slots of a slab in their order, before they are shuffled
pub open spec fn in_sequence(n: nat) -> Seq<u64> {
    Seq::new(n, |i: int| i as u64)
}

pub open spec fn swapped(order: Seq<u64>, i: int, j: int) -> Seq<u64> {
    order.update(i, order[j]).update(j, order[i])
}

/// Shuffled from slot `i` down
pub open spec fn shuffled(order: Seq<u64>, s: Seq<u64>, i: nat) -> (Seq<u64>, Seq<u64>)
    decreases i,
{
    if i == 0 {
        (order, s)
    } else {
        let j = rng::scaled(rng::output(s), (i + 1) as u64);
        shuffled(swapped(order, i as int, j), rng::advanced(s), (i - 1) as nat)
    }
}

/// The last free block of whole pages below `n` that is just as large
pub open spec fn huge_below(huge: Seq<(u64, u64)>, size: int, n: int) -> Option<int>
    decreases n,
{
    if n <= 0 {
        None
    } else if huge[n - 1].1 == size {
        Some(n - 1)
    } else {
        huge_below(huge, size, n - 1)
    }
}

impl HeapView {
    pub open spec fn end(self) -> int {
        self.base + self.size
    }

    pub open spec fn slab_count(self) -> int {
        self.size as int / (SLAB as int)
    }

    /// The slabs that a request for `n` is served from: first and how many
    pub open spec fn part_for(self, pooled: bool) -> (int, int) {
        if pooled {
            (self.window.0 as int, self.window.1 as int)
        } else if self.window.0 == 0 {
            (self.window.1 as int, self.slab_count() - self.window.1)
        } else {
            (0, self.window.0 as int)
        }
    }

    /// A run of `n` free slabs at a random place, now taken: in the window
    /// for a pooled class's slab, outside it for a run. The region is mostly
    /// empty: a few draws find room. When they do not, the first fit from
    /// one more drawn place does, if any exists.
    pub open spec fn slabs_taken(self, n: int, pooled: bool) -> (HeapView, Option<int>) {
        let s = self.rng->0;
        if self.part_for(pooled).1 < n {
            (self, None)
        } else {
            let after = HeapView { rng: Some(rng::state_after(s, 17)), ..self };
            match found_at(self, n, pooled) {
                Some(at) => (
                    HeapView { slabs: marked(self.slabs, at, n, true), ..after },
                    Some(self.base + at * SLAB),
                ),
                None => (after, None),
            }
        }
    }

    /// With the candidates and the free blocks of a class
    pub open spec fn with_class(self, c: int, pool: Seq<u64>, list: Seq<u64>) -> HeapView {
        HeapView { pools: self.pools.update(c, pool), lists: self.lists.update(c, list), ..self }
    }

    /// Freed blocks that overflowed the pool are candidates first.
    pub open spec fn topped_up(self, c: int) -> HeapView {
        let list = self.lists[c];
        let m = if list.len() < POOL {
            list.len() as int
        } else {
            POOL as int
        };
        self.with_class(
            c,
            Seq::new(m as nat, |i: int| list[list.len() - 1 - i]),
            list.take(list.len() - m),
        )
    }

    /// The slots of a new slab in drawn order
    pub open spec fn dealt(self, c: int, slab: int, order: Seq<u64>) -> HeapView {
        let size = class_size(c);
        let m = if order.len() < POOL {
            order.len() as int
        } else {
            POOL as int
        };
        self.with_class(
            c,
            Seq::new(m as nat, |k: int| (slab + order[k] * size) as u64),
            self.lists[c] + Seq::new(
                (order.len() - m) as nat,
                |k: int| (slab + order[m + k] * size) as u64,
            ),
        )
    }

    /// Candidates for class `c`, which has none: freed blocks first, then a
    /// new slab at a random place, its slots in drawn order
    pub open spec fn refilled(self, c: int) -> (HeapView, bool) {
        if self.lists[c].len() > 0 {
            (self.topped_up(c), true)
        } else {
            match self.slabs_taken(1, true) {
                (h, None) => (h, false),
                (h, Some(slab)) => {
                    let n = (SLAB as int / class_size(c)) as nat;
                    let (order, s) = shuffled(in_sequence(n), h.rng->0, (n - 1) as nat);
                    ((HeapView { rng: Some(s), ..h }).dealt(c, slab, order), true)
                },
            }
        }
    }

    /// A block drawn from the candidates of class `c`. Half the time it is
    /// the newest, which after a free is the block just freed: programs meet
    /// immediate reuse and its absence.
    pub open spec fn picked(self, c: int) -> (HeapView, int) {
        let pool = self.pools[c];
        let len = pool.len() as int;
        let draw = rng::scaled(rng::output(self.rng->0), (2 * len) as u64);
        let i = if draw < len {
            draw
        } else {
            len - 1
        };
        (
            (HeapView { rng: Some(rng::advanced(self.rng->0)), ..self }).with_class(
                c,
                pool.update(i, pool[len - 1]).drop_last(),
                self.lists[c],
            ),
            pool[i] as int,
        )
    }

    pub open spec fn drawn(self, c: int) -> (HeapView, Option<int>) {
        if self.pools[c].len() > 0 {
            let (h, p) = self.picked(c);
            (h, Some(p))
        } else {
            match self.refilled(c) {
                (h, false) => (h, None),
                (h, true) => {
                    let (h2, p) = h.picked(c);
                    (h2, Some(p))
                },
            }
        }
    }

    /// A block of a compact layout: the last that was freed, or the next
    pub open spec fn compact(self, class: Option<int>, size: int) -> (HeapView, Option<int>) {
        let bumped = if self.bump + size > self.end() {
            (self, None)
        } else {
            (HeapView { bump: (self.bump + size) as u64, ..self }, Some(self.bump as int))
        };
        match class {
            Some(c) => {
                let list = self.lists[c];
                if list.len() > 0 {
                    (
                        self.with_class(c, self.pools[c], list.drop_last()),
                        Some(list.last() as int),
                    )
                } else {
                    bumped
                }
            },
            None => match huge_below(self.huge, size, self.huge.len() as int) {
                Some(i) => (
                    HeapView { huge: self.huge.remove(i), ..self },
                    Some(self.huge[i].0 as int),
                ),
                None => bumped,
            },
        }
    }

    /// A raw block of at least `n` bytes, and its size
    pub open spec fn raw_block(self, n: int) -> (HeapView, Option<(int, int)>) {
        match class_of(n) {
            None => (self, None),
            Some((class, size)) => {
                let (h, p) = if self.rng is None {
                    self.compact(class, size)
                } else if class is Some && class->0 < N_POOLED {
                    self.drawn(class->0)
                } else {
                    self.slabs_taken(up(size, SLAB as int) / (SLAB as int), false)
                };
                (
                    h,
                    match p {
                        Some(p) => Some((p, size)),
                        None => None,
                    },
                )
            },
        }
    }

    /// A raw block is free again.
    pub open spec fn raw_freed(self, raw: int, size: int) -> HeapView {
        match class_of(size) {
            None => self,
            Some((class, _)) => if self.rng is None {
                match class {
                    Some(c) => self.with_class(c, self.pools[c], self.lists[c].push(raw as u64)),
                    None => HeapView { huge: self.huge.push((raw as u64, size as u64)), ..self },
                }
            } else if class is Some && class->0 < N_POOLED {
                let c = class->0;
                if self.pools[c].len() < POOL {
                    self.with_class(c, self.pools[c].push(raw as u64), self.lists[c])
                } else {
                    self.with_class(c, self.pools[c], self.lists[c].push(raw as u64))
                }
            } else {
                HeapView {
                    slabs: marked(
                        self.slabs,
                        (raw - self.base) / (SLAB as int),
                        up(size, SLAB as int) / (SLAB as int),
                        false,
                    ),
                    ..self
                }
            },
        }
    }

    /// What is asked of the raw block for `size` bytes at `align`
    pub open spec fn wanted(size: int, align: int) -> int {
        (if size < 1 {
            1
        } else {
            size
        }) + HEADER + (if align > 16 {
            align
        } else {
            0
        })
    }

    /// `size` bytes at a multiple of `align`
    pub open spec fn allocated(self, size: int, align: int) -> (HeapView, Option<u64>) {
        let wanted = HeapView::wanted(size, align);
        if self.base == 0 || wanted > u64::MAX {
            (self, None)
        } else {
            match self.raw_block(wanted) {
                (h, None) => (h, None),
                (h, Some((raw, got))) => {
                    let p = up(raw + HEADER, align) as u64;
                    (
                        HeapView { blocks: h.blocks.insert(p, (raw as u64, got as u64)), ..h },
                        Some(p),
                    )
                },
            }
        }
    }

    /// The block at `p` is free again.
    pub open spec fn freed(self, p: u64) -> HeapView {
        let (raw, size) = self.blocks[p];
        (HeapView { blocks: self.blocks.remove(p), ..self }).raw_freed(raw as int, size as int)
    }

    /// How much of the block at `p` can be used
    pub open spec fn usable(self, p: u64) -> int {
        self.blocks[p].0 + self.blocks[p].1 - p
    }

    /// A seeded heap serves a block of this size from whole slabs.
    pub open spec fn is_run(self, size: int) -> bool {
        self.rng is Some && size > SLAB
    }

    /// What is set aside for a block of this size
    pub open spec fn span(self, size: int) -> int {
        if self.is_run(size) {
            up(size, SLAB as int)
        } else {
            size
        }
    }

    /// A block of `size` bytes can stand at `a`.
    pub open spec fn fits(self, a: int, size: int) -> bool {
        &&& a % 16 == 0
        &&& self.base <= a
        &&& a + self.span(size) <= self.end()
        &&& self.is_run(size) ==> (a - self.base) % (SLAB as int) == 0 && (a - self.base) / (
        SLAB as int) + self.span(size) / (SLAB as int) <= self.slab_count()
    }

    pub open spec fn blank(size: u64) -> HeapView {
        HeapView {
            base: 0,
            size,
            rng: None,
            slabs: Seq::empty(),
            window: (0, 0),
            pools: Seq::new(CLASSES as nat, |c: int| Seq::empty()),
            lists: Seq::new(CLASSES as nat, |c: int| Seq::empty()),
            huge: Seq::empty(),
            bump: 0,
            blocks: Map::empty(),
        }
    }

    /// The region is at `base`. Which end the window is at is the seed's
    /// choice.
    pub open spec fn mapped(self, base: u64) -> HeapView {
        let h = HeapView { base, bump: base, ..self };
        match self.rng {
            None => h,
            Some(s) => {
                let n = self.slab_count();
                let len = if WINDOW / SLAB < n / 4 {
                    (WINDOW / SLAB) as int
                } else {
                    n / 4
                };
                let low = rng::scaled(rng::output(s), 2) == 0;
                HeapView {
                    rng: Some(rng::advanced(s)),
                    slabs: Seq::new(n as nat, |i: int| false),
                    window: (
                        if low {
                            0
                        } else {
                            (n - len) as u64
                        },
                        len as u64,
                    ),
                    ..h
                }
            },
        }
    }

    #[verifier::opaque]
    pub open spec fn wf(self) -> bool {
        &&& self.size <= REGION_SIZE
        &&& self.base % 0x4000 == 0
        &&& self.end() <= u64::MAX
        &&& self.pools.len() == CLASSES
        &&& self.lists.len() == CLASSES
        &&& self.base <= self.bump <= self.end()
        &&& self.bump % 16 == 0
        &&& self.base == 0 ==> self == (HeapView { rng: self.rng, ..HeapView::blank(self.size) })
        &&& self.base != 0 && self.rng is Some ==> self.slabs.len() == self.slab_count()
        &&& self.window.0 + self.window.1 <= self.slab_count()
        &&& forall|c: int|
            #![trigger self.pools[c]]
            0 <= c < CLASSES ==> self.pools[c].len() <= POOL
        &&& forall|c: int, i: int|
            #![trigger self.pools[c][i]]
            0 <= c < CLASSES && 0 <= i < self.pools[c].len() ==> self.fits(
                self.pools[c][i] as int,
                class_size(c),
            )
        &&& forall|c: int, i: int|
            #![trigger self.lists[c][i]]
            0 <= c < CLASSES && 0 <= i < self.lists[c].len() ==> self.fits(
                self.lists[c][i] as int,
                class_size(c),
            )
        &&& forall|i: int|
            #![trigger self.huge[i]]
            0 <= i < self.huge.len() ==> class_of(self.huge[i].1 as int) == Some(
                (None::<int>, self.huge[i].1 as int),
            ) && self.fits(self.huge[i].0 as int, self.huge[i].1 as int)
        &&& forall|p: u64|
            #![trigger self.blocks[p]]
            self.blocks.dom().contains(p) ==> self.holds(p)
    }

    /// The block at `p` is one: its raw block can stand where it does, and
    /// its payload is in it.
    pub open spec fn holds(self, p: u64) -> bool {
        let (raw, size) = self.blocks[p];
        &&& class_of(size as int) matches Some((_, own)) && own == size
        &&& self.fits(raw as int, size as int)
        &&& raw + HEADER <= p < raw + size
    }
}

/// Vectors as what they hold
pub open spec fn held(v: Seq<Vec<u64>>) -> Seq<Seq<u64>> {
    v.map_values(|b: Vec<u64>| b@)
}

pub struct Heap {
    base: u64,
    size: u64,
    rng: Option<Rng>,
    slabs: Vec<bool>,
    window: (u64, u64),
    pools: Vec<Vec<u64>>,
    lists: Vec<Vec<u64>>,
    huge: Vec<(u64, u64)>,
    bump: u64,
    blocks: HashMap<u64, (u64, u64)>,
}

impl View for Heap {
    type V = HeapView;

    closed spec fn view(&self) -> HeapView {
        HeapView {
            base: self.base,
            size: self.size,
            rng: match self.rng {
                Some(r) => Some(r@),
                None => None,
            },
            slabs: self.slabs@,
            window: self.window,
            pools: held(self.pools@),
            lists: held(self.lists@),
            huge: self.huge@,
            bump: self.bump,
            blocks: self.blocks@,
        }
    }
}

/// What a change that keeps the blocks and the free ones keeps
proof fn lemma_same_blocks(a: HeapView, b: HeapView)
    requires
        a.wf(),
        a.base != 0,
        b == (HeapView { rng: b.rng, slabs: b.slabs, ..a }),
        b.slabs.len() == a.slabs.len(),
        a.rng is Some == b.rng is Some,
    ensures
        b.wf(),
{
    reveal(HeapView::wf);
    assert forall|c: int, i: int|
        #![trigger b.pools[c][i]]
        0 <= c < CLASSES && 0 <= i < b.pools[c].len() implies b.fits(
        b.pools[c][i] as int,
        class_size(c),
    ) by {
        assert(a.fits(a.pools[c][i] as int, class_size(c)));
    }
    assert forall|c: int, i: int|
        #![trigger b.lists[c][i]]
        0 <= c < CLASSES && 0 <= i < b.lists[c].len() implies b.fits(
        b.lists[c][i] as int,
        class_size(c),
    ) by {
        assert(a.fits(a.lists[c][i] as int, class_size(c)));
    }
    assert forall|i: int| #![trigger b.huge[i]] 0 <= i < b.huge.len() implies class_of(
        b.huge[i].1 as int,
    ) == Some((None::<int>, b.huge[i].1 as int)) && b.fits(
        b.huge[i].0 as int,
        b.huge[i].1 as int,
    ) by {
        assert(a.fits(a.huge[i].0 as int, a.huge[i].1 as int));
    }
    assert forall|p: u64| #![trigger b.blocks[p]] b.blocks.dom().contains(p) implies b.holds(p) by {
        assert(a.holds(p));
    }
}

/// A class got other candidates and free blocks.
proof fn lemma_with_class(a: HeapView, c: int, pool: Seq<u64>, list: Seq<u64>)
    requires
        a.wf(),
        a.base != 0,
        0 <= c < CLASSES,
        pool.len() <= POOL,
        forall|i: int| 0 <= i < pool.len() ==> a.fits(#[trigger] pool[i] as int, class_size(c)),
        forall|i: int| 0 <= i < list.len() ==> a.fits(#[trigger] list[i] as int, class_size(c)),
    ensures
        a.with_class(c, pool, list).wf(),
{
    reveal(HeapView::wf);
    let b = a.with_class(c, pool, list);
    assert forall|k: int, i: int|
        #![trigger b.pools[k][i]]
        0 <= k < CLASSES && 0 <= i < b.pools[k].len() implies b.fits(
        b.pools[k][i] as int,
        class_size(k),
    ) by {
        if k == c {
            assert(a.fits(pool[i] as int, class_size(c)));
        } else {
            assert(b.pools[k] == a.pools[k]);
            assert(a.fits(a.pools[k][i] as int, class_size(k)));
        }
    }
    assert forall|k: int, i: int|
        #![trigger b.lists[k][i]]
        0 <= k < CLASSES && 0 <= i < b.lists[k].len() implies b.fits(
        b.lists[k][i] as int,
        class_size(k),
    ) by {
        if k == c {
            assert(a.fits(list[i] as int, class_size(c)));
        } else {
            assert(b.lists[k] == a.lists[k]);
            assert(a.fits(a.lists[k][i] as int, class_size(k)));
        }
    }
    assert forall|k: int| #![trigger b.pools[k]] 0 <= k < CLASSES implies b.pools[k].len()
        <= POOL by {
        if k != c {
            assert(b.pools[k] == a.pools[k]);
        }
    }
    assert forall|i: int| #![trigger b.huge[i]] 0 <= i < b.huge.len() implies class_of(
        b.huge[i].1 as int,
    ) == Some((None::<int>, b.huge[i].1 as int)) && b.fits(
        b.huge[i].0 as int,
        b.huge[i].1 as int,
    ) by {
        assert(a.fits(a.huge[i].0 as int, a.huge[i].1 as int));
    }
    assert forall|p: u64| #![trigger b.blocks[p]] b.blocks.dom().contains(p) implies b.holds(p) by {
        assert(a.holds(p));
    }
}

impl Heap {
    pub closed spec fn wf(self) -> bool {
        self@.wf()
    }

    /// A heap of `size` bytes of address space, before it has a region
    pub fn new(size: u64) -> (r: Self)
        requires
            size <= REGION_SIZE,
        ensures
            r.wf(),
            r@ == HeapView::blank(size),
    {
        broadcast use vstd::std_specs::hash::group_hash_axioms;

        let mut pools: Vec<Vec<u64>> = Vec::new();
        let mut lists: Vec<Vec<u64>> = Vec::new();
        let mut i: usize = 0;
        while i < CLASSES
            invariant
                i <= CLASSES,
                pools@.len() == i,
                lists@.len() == i,
                forall|k: int| 0 <= k < i ==> (#[trigger] pools@[k])@ == Seq::<u64>::empty(),
                forall|k: int| 0 <= k < i ==> (#[trigger] lists@[k])@ == Seq::<u64>::empty(),
            decreases CLASSES - i,
        {
            pools.push(Vec::new());
            lists.push(Vec::new());
            i += 1;
        }
        let r = Heap {
            base: 0,
            size,
            rng: None,
            slabs: Vec::new(),
            window: (0, 0),
            pools,
            lists,
            huge: Vec::new(),
            bump: 0,
            blocks: HashMap::new(),
        };
        proof {
            assert(held(pools@) =~= HeapView::blank(size).pools);
            assert(held(lists@) =~= HeapView::blank(size).lists);
            assert(r@.blocks =~= Map::empty());
            assert(r@ =~= HeapView::blank(size));
            reveal(HeapView::wf);
        }
        r
    }

    /// From now on, where a guest's block lands is drawn from `seed`. A heap
    /// that has its region already keeps its layout.
    pub fn seed_layout(&mut self, seed: u64)
        requires
            old(self).wf(),
        ensures
            final(self).wf(),
            final(self)@ == (if old(self)@.base == 0 {
                HeapView { rng: Some(rng::expanded(seed)), ..old(self)@ }
            } else {
                old(self)@
            }),
    {
        if self.base == 0 {
            self.rng = Some(Rng::seed_from_u64(seed));
            proof {
                reveal(HeapView::wf);
                assert(self@ =~= HeapView { rng: Some(rng::expanded(seed)), ..old(self)@ });
            }
        }
    }

    /// Go on with another seed, where the layout is drawn from one.
    pub fn reseed(&mut self, seed: u64)
        requires
            old(self).wf(),
        ensures
            final(self).wf(),
            final(self)@ == (if old(self)@.rng is Some {
                HeapView { rng: Some(rng::expanded(seed)), ..old(self)@ }
            } else {
                old(self)@
            }),
    {
        if self.rng.is_some() {
            self.rng = Some(Rng::seed_from_u64(seed));
            proof {
                assert(self@ =~= HeapView { rng: Some(rng::expanded(seed)), ..old(self)@ });
                if self.base == 0 {
                    reveal(HeapView::wf);
                } else {
                    lemma_same_blocks(old(self)@, self@);
                }
            }
        }
    }

    /// The region has been mapped at `base`.
    pub fn map(&mut self, base: u64)
        requires
            old(self).wf(),
            old(self)@.base == 0,
            base != 0,
            base % 0x4000 == 0,
            base + old(self)@.size <= u64::MAX,
        ensures
            final(self).wf(),
            final(self)@ == old(self)@.mapped(base),
    {
        proof {
            reveal(HeapView::wf);
        }
        self.base = base;
        self.bump = base;
        match self.rng {
            Some(r) => {
                let mut r: Rng = r;
                let n: u64 = self.size / SLAB;
                let len: u64 = if WINDOW / SLAB < n / 4 {
                    WINDOW / SLAB
                } else {
                    n / 4
                };
                let low: bool = r.below(2) == 0;
                self.slabs = vec![false; n as usize];
                self.window = (
                    if low {
                        0
                    } else {
                        n - len
                    },
                    len,
                );
                self.rng = Some(r);
                assert(self@.slabs =~= Seq::new(n as nat, |i: int| false));
            },
            None => {},
        }
        assert(self@ =~= old(self)@.mapped(base));
    }

    /// Where the region is, 0 before there is one
    pub fn base(&self) -> (r: u64)
        ensures
            r == self@.base,
    {
        self.base
    }

    /// Whether the region is in use where it should be
    pub fn region_fixed(&self, hint: u64) -> (r: bool)
        ensures
            r == (self@.base == hint),
    {
        self.base == hint
    }

    /// Whether `p` is in the region
    pub fn contains(&self, p: u64) -> (r: bool)
        requires
            self.wf(),
        ensures
            r == (self@.base != 0 && self@.base <= p < self@.end()),
    {
        proof {
            reveal(HeapView::wf);
        }
        self.base != 0 && p >= self.base && p < self.base + self.size
    }

    /// How many slabs are taken
    pub fn slabs_in_use(&self) -> (r: usize)
        ensures
            r == taken_below(self@.slabs, self@.slabs.len() as int),
    {
        let mut n: usize = 0;
        let mut i: usize = 0;
        while i < self.slabs.len()
            invariant
                i <= self.slabs@.len(),
                n <= i,
                n == taken_below(self.slabs@, i as int),
            decreases self.slabs@.len() - i,
        {
            if self.slabs[i] {
                n += 1;
            }
            i += 1;
        }
        n
    }

    fn free_run(&self, at: u64, n: u64) -> (r: bool)
        requires
            at + n <= self@.slabs.len(),
        ensures
            r == is_free(self@.slabs, at as int, n as int),
    {
        let len: usize = self.slabs.len();
        let mut i: u64 = at;
        while i < at + n
            invariant
                at <= i <= at + n,
                at + n <= self.slabs@.len() == len,
                forall|k: int| at <= k < i ==> !#[trigger] self.slabs@[k],
            decreases at + n - i,
        {
            if self.slabs[i as usize] {
                assert(self@.slabs[i as int]);
                return false;
            }
            i += 1;
        }
        true
    }

    fn mark_slabs(&mut self, at: u64, n: u64, taken: bool)
        requires
            at + n <= old(self)@.slabs.len(),
        ensures
            final(self)@ == (HeapView {
                slabs: marked(old(self)@.slabs, at as int, n as int, taken),
                ..old(self)@
            }),
    {
        let ghost before = self@;
        let len: usize = self.slabs.len();
        let mut i: u64 = at;
        while i < at + n
            invariant
                at <= i <= at + n,
                at + n <= self.slabs@.len() == len,
                before.slabs.len() == len,
                self@ == (HeapView { slabs: self.slabs@, ..before }),
                forall|k: int| at <= k < i ==> #[trigger] self.slabs@[k] == taken,
                forall|k: int|
                    0 <= k < len && !(at <= k < i) ==> #[trigger] self.slabs@[k] == before.slabs[k],
            decreases at + n - i,
        {
            self.slabs.set(i as usize, taken);
            i += 1;
        }
        assert(self@.slabs =~= marked(before.slabs, at as int, n as int, taken));
    }
}

/// How many of the first `n` slabs are taken
pub open spec fn taken_below(slabs: Seq<bool>, n: int) -> int
    decreases n,
{
    if n <= 0 {
        0
    } else {
        taken_below(slabs, n - 1) + (if slabs[n - 1] {
            1int
        } else {
            0
        })
    }
}

pub(crate) proof fn lemma_drawn_at(s: Seq<u64>, first: int, last: int, i: nat)
    requires
        0 <= last < u64::MAX,
    ensures
        first <= drawn_at(s, first, last, i) <= first + last,
{
    rng::lemma_scaled_below(rng::output(rng::state_after(s, i)), (last + 1) as u64);
}

pub(crate) proof fn lemma_try_from(slabs: Seq<bool>, s: Seq<u64>, first: int, last: int, n: int, i: nat)
    requires
        0 <= last < u64::MAX,
    ensures
        try_from(slabs, s, first, last, n, i) matches Some(at) ==> first <= at <= first + last
            && is_free(slabs, at, n),
    decreases 16 - i,
{
    if i < 16 {
        lemma_drawn_at(s, first, last, i);
        lemma_try_from(slabs, s, first, last, n, i + 1);
    }
}

pub(crate) proof fn lemma_fit_from(slabs: Seq<bool>, first: int, last: int, n: int, start: int, k: int)
    requires
        0 <= last,
        0 <= start,
        0 <= k,
    ensures
        fit_from(slabs, first, last, n, start, k) matches Some(at) ==> first <= at <= first + last
            && is_free(slabs, at, n),
    decreases last + 1 - k,
{
    if k <= last {
        assert(0 <= (start + k) % (last + 1) <= last) by {
            vstd::arithmetic::div_mod::lemma_mod_bound(start + k, last + 1);
        }
        lemma_fit_from(slabs, first, last, n, start, k + 1);
    }
}

/// What a heap with a region says of its slabs
pub(crate) proof fn lemma_part(h: HeapView, pooled: bool)
    requires
        h.wf(),
        h.base != 0,
        h.rng is Some,
    ensures
        ({
            let (first, len) = h.part_for(pooled);
            &&& 0 <= first
            &&& 0 <= len
            &&& first + len <= h.slabs.len()
            &&& h.slabs.len() == h.slab_count()
            &&& h.slab_count() * SLAB <= h.size <= REGION_SIZE
            &&& h.base % 0x4000 == 0
            &&& h.end() <= u64::MAX
        }),
{
    reveal(HeapView::wf);
}

/// Where a run is found, if anywhere
pub open spec fn found_at(h: HeapView, n: int, pooled: bool) -> Option<int> {
    let (first, len) = h.part_for(pooled);
    let s = h.rng->0;
    let last = len - n;
    match try_from(h.slabs, s, first, last, n, 0) {
        Some(at) => Some(at),
        None => fit_from(h.slabs, first, last, n, drawn_at(s, first, last, 16) - first, 0),
    }
}

proof fn lemma_found_at(h: HeapView, n: int, pooled: bool)
    requires
        h.wf(),
        h.base != 0,
        h.rng is Some,
        1 <= n <= h.part_for(pooled).1,
    ensures
        found_at(h, n, pooled) matches Some(at) ==> 0 <= at && at + n <= h.slab_count() && is_free(
            h.slabs,
            at,
            n,
        ),
{
    lemma_part(h, pooled);
    let (first, len) = h.part_for(pooled);
    let last = len - n;
    let s = h.rng->0;
    lemma_try_from(h.slabs, s, first, last, n, 0);
    lemma_drawn_at(s, first, last, 16);
    lemma_fit_from(h.slabs, first, last, n, drawn_at(s, first, last, 16) - first, 0);
}

proof fn lemma_slab_address(h: HeapView, at: int, n: int)
    requires
        0 <= at,
        0 <= n,
        at + n <= h.slab_count(),
        h.base % 0x4000 == 0,
    ensures
        (h.base + at * SLAB - h.base) / (SLAB as int) == at,
        h.base + at * SLAB + n * SLAB <= h.end(),
        (h.base + at * SLAB) % 16 == 0,
{
    let count = h.slab_count();
    assert(count * SLAB <= h.size);
    assert((at + n) * SLAB <= count * SLAB);
}

/// What taking a run does
pub(crate) proof fn lemma_slabs_taken(h: HeapView, n: int, pooled: bool)
    requires
        h.wf(),
        h.base != 0,
        h.rng is Some,
        1 <= n,
    ensures
        ({
            let (after, got) = h.slabs_taken(n, pooled);
            &&& after.wf()
            &&& after.rng is Some
            &&& after == (HeapView { rng: after.rng, slabs: after.slabs, ..h })
            &&& got matches Some(a) ==> {
                let at = (a - h.base) / (SLAB as int);
                &&& a == h.base + at * SLAB
                &&& 0 <= at
                &&& at + n <= h.slab_count()
                &&& a + n * SLAB <= h.end()
                &&& a % 16 == 0
                &&& is_free(h.slabs, at, n)
                &&& after.slabs == marked(h.slabs, at, n, true)
            }
            &&& got is None ==> after.slabs == h.slabs
        }),
{
    lemma_part(h, pooled);
    if h.part_for(pooled).1 >= n {
        lemma_found_at(h, n, pooled);
        let (after, got) = h.slabs_taken(n, pooled);
        let found = found_at(h, n, pooled);
        assert(found is Some == got is Some);
        assert(after.slabs.len() == h.slabs.len());
        assert(after == (HeapView { rng: after.rng, slabs: after.slabs, ..h }));
        lemma_same_blocks(h, after);
        if found is Some {
            lemma_slab_address(h, found->0, n);
        }
    }
}

impl Heap {
    /// The next number below `n` of the layout's stream
    fn draw_below(&mut self, n: u64) -> (r: u64)
        requires
            old(self).wf(),
            old(self)@.base != 0,
            old(self)@.rng is Some,
            n > 0,
        ensures
            final(self).wf(),
            final(self)@ == (HeapView {
                rng: Some(rng::advanced(old(self)@.rng->0)),
                ..old(self)@
            }),
            r == rng::scaled(rng::output(old(self)@.rng->0), n),
            r < n,
    {
        let mut r: u64 = 0;
        if let Some(g) = self.rng {
            let mut g: Rng = g;
            r = g.below(n);
            self.rng = Some(g);
        }
        proof {
            assert(self@ =~= HeapView { rng: Some(rng::advanced(old(self)@.rng->0)), ..old(self)@ });
            lemma_same_blocks(old(self)@, self@);
        }
        r
    }

    /// The drawn places of a run: sixteen to try, and one to start from
    fn tries(&mut self, first: u64, last: u64) -> (r: Vec<u64>)
        requires
            old(self).wf(),
            old(self)@.base != 0,
            old(self)@.rng is Some,
            first + last < u64::MAX,
        ensures
            final(self).wf(),
            final(self)@ == (HeapView {
                rng: Some(rng::state_after(old(self)@.rng->0, 17)),
                ..old(self)@
            }),
            r@.len() == 17,
            forall|i: int|
                0 <= i < 17 ==> #[trigger] r@[i] == drawn_at(
                    old(self)@.rng->0,
                    first as int,
                    last as int,
                    i as nat,
                ),
    {
        let ghost s = self@.rng->0;
        let ghost before = self@;
        let mut out: Vec<u64> = Vec::new();
        let mut i: usize = 0;
        while i < 17
            invariant
                i <= 17,
                first + last < u64::MAX,
                self.wf(),
                before.base != 0,
                self@ == (HeapView { rng: Some(rng::state_after(s, i as nat)), ..before }),
                out@.len() == i,
                forall|k: int|
                    0 <= k < i ==> #[trigger] out@[k] == drawn_at(
                        s,
                        first as int,
                        last as int,
                        k as nat,
                    ),
            decreases 17 - i,
        {
            let d: u64 = self.draw_below(last + 1);
            out.push(first + d);
            i += 1;
            assert(rng::state_after(s, i as nat) == rng::advanced(
                rng::state_after(s, (i - 1) as nat),
            ));
        }
        out
    }

    /// The first place of those drawn that has room, or the first from the
    /// last drawn one on
    fn place(&self, tries: &Vec<u64>, first: u64, last: u64, n: u64, Ghost(s): Ghost<Seq<u64>>)
        -> (r: Option<u64>)
        requires
            tries@.len() == 17,
            forall|i: int|
                0 <= i < 17 ==> #[trigger] tries@[i] == drawn_at(
                    s,
                    first as int,
                    last as int,
                    i as nat,
                ),
            first + last + n <= self@.slabs.len() <= REGION_SIZE,
        ensures
            match r {
                Some(at) => Some(at as int),
                None => None,
            } == (match try_from(self@.slabs, s, first as int, last as int, n as int, 0) {
                Some(at) => Some(at),
                None => fit_from(
                    self@.slabs,
                    first as int,
                    last as int,
                    n as int,
                    drawn_at(s, first as int, last as int, 16) - first,
                    0,
                ),
            }),
            r matches Some(at) ==> first <= at <= first + last,
    {
        let mut i: usize = 0;
        while i < 16
            invariant
                i <= 16,
                tries@.len() == 17,
                forall|k: int|
                    0 <= k < 17 ==> #[trigger] tries@[k] == drawn_at(
                        s,
                        first as int,
                        last as int,
                        k as nat,
                    ),
                first + last + n <= self@.slabs.len() <= REGION_SIZE,
                try_from(self@.slabs, s, first as int, last as int, n as int, 0) == try_from(
                    self@.slabs,
                    s,
                    first as int,
                    last as int,
                    n as int,
                    i as nat,
                ),
            decreases 16 - i,
        {
            proof {
                lemma_drawn_at(s, first as int, last as int, i as nat);
            }
            assert(tries@[i as int] == drawn_at(s, first as int, last as int, i as nat));
            if self.free_run(tries[i], n) {
                return Some(tries[i]);
            }
            i += 1;
        }
        proof {
            lemma_drawn_at(s, first as int, last as int, 16);
        }
        assert(tries@[16] == drawn_at(s, first as int, last as int, 16));
        let start: u64 = tries[16] - first;
        let mut k: u64 = 0;
        while k <= last
            invariant
                k <= last + 1,
                start <= last,
                start == drawn_at(s, first as int, last as int, 16) - first,
                first + last + n <= self@.slabs.len() <= REGION_SIZE,
                try_from(self@.slabs, s, first as int, last as int, n as int, 0) is None,
                fit_from(
                    self@.slabs,
                    first as int,
                    last as int,
                    n as int,
                    start as int,
                    0,
                ) == fit_from(
                    self@.slabs,
                    first as int,
                    last as int,
                    n as int,
                    start as int,
                    k as int,
                ),
            decreases last + 1 - k,
        {
            let off: u64 = (start + k) % (last + 1);
            if self.free_run(first + off, n) {
                return Some(first + off);
            }
            k += 1;
        }
        None
    }

    /// A run of `n` free slabs at a random place, now taken
    fn take_slabs(&mut self, n: u64, pooled: bool) -> (r: Option<u64>)
        requires
            old(self).wf(),
            old(self)@.base != 0,
            old(self)@.rng is Some,
            1 <= n,
        ensures
            final(self).wf(),
            ({
                let (h, got) = old(self)@.slabs_taken(n as int, pooled);
                &&& final(self)@ == h
                &&& match r {
                    Some(a) => got == Some(a as int),
                    None => got is None,
                }
            }),
    {
        let ghost before = self@;
        proof {
            lemma_part(before, pooled);
            lemma_slabs_taken(before, n as int, pooled);
        }
        let (first, len): (u64, u64) = if pooled {
            self.window
        } else if self.window.0 == 0 {
            (self.window.1, self.size / SLAB - self.window.1)
        } else {
            (0, self.window.0)
        };
        assert((first as int, len as int) == before.part_for(pooled));
        if len < n {
            return None;
        }
        let last: u64 = len - n;
        let tries = self.tries(first, last);
        match self.place(&tries, first, last, n, Ghost(before.rng->0)) {
            Some(at) => {
                self.mark_slabs(at, n, true);
                assert(at * SLAB <= before.slab_count() * SLAB);
                Some(self.base + at * SLAB)
            },
            None => None,
        }
    }
}

/// The slots are those of a slab, in some order.
pub open spec fn is_order(order: Seq<u64>, n: int) -> bool {
    &&& order.len() == n
    &&& forall|k: int| 0 <= k < n ==> #[trigger] order[k] < n
    &&& forall|j: int, k: int| 0 <= j < k < n ==> #[trigger] order[j] != #[trigger] order[k]
}

proof fn lemma_swapped(order: Seq<u64>, i: int, j: int, n: int)
    requires
        is_order(order, n),
        0 <= i < n,
        0 <= j < n,
    ensures
        is_order(swapped(order, i, j), n),
{
    let t = swapped(order, i, j);
    let from = |k: int| if k == i {
        j
    } else if k == j {
        i
    } else {
        k
    };
    assert forall|k: int| 0 <= k < n implies #[trigger] t[k] == order[from(k)] by {}
    assert forall|k: int, l: int| 0 <= k < l < n implies #[trigger] t[k] != #[trigger] t[l] by {
        assert(t[k] == order[from(k)] && t[l] == order[from(l)]);
        if from(k) < from(l) {
            assert(order[from(k)] != order[from(l)]);
        } else {
            assert(order[from(l)] != order[from(k)]);
        }
    }
}

/// A shuffled order is one.
proof fn lemma_shuffled(order: Seq<u64>, s: Seq<u64>, i: nat, n: int)
    requires
        is_order(order, n),
        i < n <= SLAB,
    ensures
        is_order(shuffled(order, s, i).0, n),
    decreases i,
{
    if i > 0 {
        let j = rng::scaled(rng::output(s), (i + 1) as u64);
        rng::lemma_scaled_below(rng::output(s), (i + 1) as u64);
        lemma_swapped(order, i as int, j, n);
        lemma_shuffled(swapped(order, i as int, j), rng::advanced(s), (i - 1) as nat, n);
    }
}

/// How many blocks of a pooled class a slab has
pub open spec fn slots(c: int) -> int {
    SLAB as int / class_size(c)
}

/// A slot of a slab is a place for a block of its class.
proof fn lemma_slot(h: HeapView, slab: int, k: int, c: int)
    requires
        0 <= c < N_POOLED,
        0 <= k < slots(c),
        h.base <= slab,
        slab + SLAB <= h.end(),
        slab % 16 == 0,
    ensures
        h.fits(slab + k * class_size(c), class_size(c)),
        slab <= slab + k * class_size(c),
        slab + k * class_size(c) + class_size(c) <= slab + SLAB,
{
    let size = class_size(c);
    let m = size / 16;
    assert(size == 16 * m && 1 <= m && size <= SLAB);
    assert(k * size + size <= SLAB) by (nonlinear_arith)
        requires
            0 <= k < 0x1_0000int / size,
            1 <= size <= 0x1_0000,
            SLAB == 0x1_0000,
    ;
    assert(k * size == 16 * (k * m)) by (nonlinear_arith)
        requires
            size == 16 * m,
    ;
    assert(0 <= k * m) by (nonlinear_arith)
        requires
            0 <= k,
            1 <= m,
    ;
    assert((slab + 16 * (k * m)) % 16 == 0);
}

/// A class's slab, dealt out
proof fn lemma_dealt(h: HeapView, c: int, slab: int, order: Seq<u64>)
    requires
        h.wf(),
        h.base != 0,
        0 <= c < N_POOLED,
        is_order(order, slots(c)),
        h.base <= slab,
        slab + SLAB <= h.end(),
        slab % 16 == 0,
    ensures
        h.dealt(c, slab, order).wf(),
{
    let size = class_size(c);
    let m = if order.len() < POOL {
        order.len() as int
    } else {
        POOL as int
    };
    let pool = Seq::new(m as nat, |k: int| (slab + order[k] * size) as u64);
    let rest = Seq::new(
        (order.len() - m) as nat,
        |k: int| (slab + order[m + k] * size) as u64,
    );
    let list = h.lists[c] + rest;
    lemma_bounds(h);
    assert forall|i: int| 0 <= i < pool.len() implies h.fits(#[trigger] pool[i] as int, size) by {
        lemma_slot(h, slab, order[i] as int, c);
    }
    assert forall|i: int| 0 <= i < list.len() implies h.fits(#[trigger] list[i] as int, size) by {
        if i < h.lists[c].len() {
            lemma_entries(h, c);
            assert(list[i] == h.lists[c][i]);
        } else {
            lemma_slot(h, slab, order[m + i - h.lists[c].len()] as int, c);
        }
    }
    lemma_with_class(h, c, pool, list);
}

/// What is known of the numbers of a heap
proof fn lemma_bounds(h: HeapView)
    requires
        h.wf(),
    ensures
        h.end() <= u64::MAX,
        h.size <= REGION_SIZE,
        h.base % 0x4000 == 0,
        h.pools.len() == CLASSES,
        h.lists.len() == CLASSES,
        h.base <= h.bump <= h.end(),
        h.bump % 16 == 0,
{
    reveal(HeapView::wf);
}

/// What is known of the free blocks of a class
proof fn lemma_entries(h: HeapView, c: int)
    requires
        h.wf(),
        0 <= c < CLASSES,
    ensures
        h.pools[c].len() <= POOL,
        forall|i: int|
            0 <= i < h.pools[c].len() ==> h.fits(#[trigger] h.pools[c][i] as int, class_size(c)),
        forall|i: int|
            0 <= i < h.lists[c].len() ==> h.fits(#[trigger] h.lists[c][i] as int, class_size(c)),
{
    reveal(HeapView::wf);
}

proof fn lemma_topped_up(h: HeapView, c: int)
    requires
        h.wf(),
        h.base != 0,
        0 <= c < CLASSES,
    ensures
        h.topped_up(c).wf(),
{
    let list = h.lists[c];
    let m = if list.len() < POOL {
        list.len() as int
    } else {
        POOL as int
    };
    lemma_entries(h, c);
    let pool = Seq::new(m as nat, |i: int| list[list.len() - 1 - i]);
    let rest = list.take(list.len() - m);
    assert forall|i: int| 0 <= i < pool.len() implies h.fits(
        #[trigger] pool[i] as int,
        class_size(c),
    ) by {
        assert(pool[i] == h.lists[c][list.len() - 1 - i]);
    }
    assert forall|i: int| 0 <= i < rest.len() implies h.fits(
        #[trigger] rest[i] as int,
        class_size(c),
    ) by {
        assert(rest[i] == h.lists[c][i]);
    }
    lemma_with_class(h, c, pool, rest);
}

proof fn lemma_picked(h: HeapView, c: int)
    requires
        h.wf(),
        h.base != 0,
        h.rng is Some,
        0 <= c < N_POOLED,
        h.pools[c].len() > 0,
    ensures
        h.picked(c).0.wf(),
        h.fits(h.picked(c).1, class_size(c)),
{
    lemma_entries(h, c);
    lemma_bounds(h);
    let pool = h.pools[c];
    let len = pool.len() as int;
    let draw = rng::scaled(rng::output(h.rng->0), (2 * len) as u64);
    rng::lemma_scaled_below(rng::output(h.rng->0), (2 * len) as u64);
    let i = if draw < len {
        draw
    } else {
        len - 1
    };
    let mid = HeapView { rng: Some(rng::advanced(h.rng->0)), ..h };
    lemma_same_blocks(h, mid);
    let left = pool.update(i, pool[len - 1]).drop_last();
    assert forall|k: int| 0 <= k < left.len() implies mid.fits(
        #[trigger] left[k] as int,
        class_size(c),
    ) by {
        if k == i {
            assert(left[k] == h.pools[c][len - 1]);
        } else {
            assert(left[k] == h.pools[c][k]);
        }
        assert(h.fits(left[k] as int, class_size(c)));
    }
    assert forall|k: int| 0 <= k < h.lists[c].len() implies mid.fits(
        #[trigger] h.lists[c][k] as int,
        class_size(c),
    ) by {
        assert(h.fits(h.lists[c][k] as int, class_size(c)));
    }
    lemma_with_class(mid, c, left, h.lists[c]);
    assert(h.fits(h.pools[c][i] as int, class_size(c)));
}

impl Heap {
    fn shuffle(&mut self, n: u64) -> (r: Vec<u64>)
        requires
            old(self).wf(),
            old(self)@.base != 0,
            old(self)@.rng is Some,
            1 <= n <= SLAB,
        ensures
            final(self).wf(),
            ({
                let (order, s) = shuffled(
                    in_sequence(n as nat),
                    old(self)@.rng->0,
                    (n - 1) as nat,
                );
                &&& r@ == order
                &&& final(self)@ == (HeapView { rng: Some(s), ..old(self)@ })
            }),
            is_order(r@, n as int),
    {
        let ghost before = self@;
        let ghost s0 = self@.rng->0;
        let mut order: Vec<u64> = Vec::new();
        let mut i: u64 = 0;
        while i < n
            invariant
                i <= n,
                order@ == in_sequence(i as nat),
            decreases n - i,
        {
            order.push(i);
            i += 1;
            assert(order@ =~= in_sequence(i as nat));
        }
        proof {
            assert(is_order(in_sequence(n as nat), n as int));
            lemma_shuffled(in_sequence(n as nat), s0, (n - 1) as nat, n as int);
        }
        let mut i: u64 = n - 1;
        while i > 0
            invariant
                i < n <= SLAB,
                self.wf(),
                before.base != 0,
                self@.rng is Some,
                self@ == (HeapView { rng: self@.rng, ..before }),
                order@.len() == n,
                shuffled(in_sequence(n as nat), s0, (n - 1) as nat) == shuffled(
                    order@,
                    self@.rng->0,
                    i as nat,
                ),
            decreases i,
        {
            let ghost was = order@;
            let j: u64 = self.draw_below(i + 1);
            let a: u64 = order[i as usize];
            let b: u64 = order[j as usize];
            order.set(i as usize, b);
            order.set(j as usize, a);
            assert(order@ =~= swapped(was, i as int, j as int));
            i -= 1;
        }
        order
    }

    /// Slots of a new slab: as many candidates as there is room for, and the
    /// rest free.
    fn deal(&mut self, c: usize, slab: u64, order: &Vec<u64>, size: u64)
        requires
            old(self).wf(),
            old(self)@.base != 0,
            c < N_POOLED,
            size == class_size(c as int),
            is_order(order@, slots(c as int)),
            old(self)@.base <= slab,
            slab + SLAB <= old(self)@.end(),
            slab % 16 == 0,
            old(self)@.pools[c as int].len() == 0,
        ensures
            final(self).wf(),
            final(self)@ == old(self)@.dealt(c as int, slab as int, order@),
    {
        let ghost before = self@;
        proof {
            lemma_bounds(before);
            lemma_dealt(before, c as int, slab as int, order@);
        }
        let ghost m = if order@.len() < POOL {
            order@.len() as int
        } else {
            POOL as int
        };
        let ghost want = before.dealt(c as int, slab as int, order@);
        let ghost list0 = before.lists[c as int];
        let mut k: usize = 0;
        assert(list0.take(list0.len() as int) =~= list0);
        while k < order.len()
            invariant
                k <= order@.len(),
                c < N_POOLED,
                size == class_size(c as int),
                is_order(order@, slots(c as int)),
                before.base <= slab,
                slab + SLAB <= before.end() <= u64::MAX,
                slab % 16 == 0,
                before.pools.len() == CLASSES,
                before.lists.len() == CLASSES,
                m == (if order@.len() < POOL {
                    order@.len() as int
                } else {
                    POOL as int
                }),
                want == before.dealt(c as int, slab as int, order@),
                list0 == before.lists[c as int],
                self.pools@.len() == CLASSES,
                self.lists@.len() == CLASSES,
                self@ == before.with_class(
                    c as int,
                    self@.pools[c as int],
                    self@.lists[c as int],
                ),
                self@.pools[c as int] =~= want.pools[c as int].take(
                    if k < m {
                        k as int
                    } else {
                        m
                    },
                ),
                self@.lists[c as int] =~= want.lists[c as int].take(
                    list0.len() + if k < m {
                        0
                    } else {
                        k - m
                    },
                ),
            decreases order@.len() - k,
        {
            let ghost was = self@;
            proof {
                lemma_slot(before, slab as int, order@[k as int] as int, c as int);
            }
            assert(order@[k as int] * size <= u64::MAX);
            let p: u64 = slab + order[k] * size;
            let full: bool = self.pools[c].len() >= POOL;
            if full {
                let list = &mut self.lists[c];
                list.push(p);
                assert(self@.lists =~= was.lists.update(
                    c as int,
                    was.lists[c as int].push(p),
                ));
                assert(self@.pools =~= was.pools.update(c as int, was.pools[c as int]));
            } else {
                let pool = &mut self.pools[c];
                pool.push(p);
                assert(self@.pools =~= was.pools.update(
                    c as int,
                    was.pools[c as int].push(p),
                ));
                assert(self@.lists =~= was.lists.update(c as int, was.lists[c as int]));
            }
            k += 1;
            assert(self@ =~= before.with_class(
                c as int,
                self@.pools[c as int],
                self@.lists[c as int],
            ));
        }
        assert(self@.pools[c as int] =~= want.pools[c as int]);
        assert(self@.lists[c as int] =~= want.lists[c as int]);
        assert(self@ =~= want);
    }
}

proof fn lemma_refilled(h: HeapView, c: int)
    requires
        h.wf(),
        h.base != 0,
        h.rng is Some,
        0 <= c < N_POOLED,
    ensures
        h.refilled(c).0.wf(),
        h.refilled(c).0.rng is Some,
        h.refilled(c).0.base == h.base,
        h.refilled(c).0.size == h.size,
        h.refilled(c).1 ==> h.refilled(c).0.pools[c].len() > 0,
        h.refilled(c).0.blocks == h.blocks,
{
    lemma_bounds(h);
    if h.lists[c].len() > 0 {
        lemma_topped_up(h, c);
    } else {
        lemma_slabs_taken(h, 1, true);
        let (mid, got) = h.slabs_taken(1, true);
        if got is Some {
            let n = slots(c);
            lemma_slots(c);
            assert(is_order(in_sequence(n as nat), n));
            lemma_shuffled(in_sequence(n as nat), mid.rng->0, (n - 1) as nat, n);
            let (order, s) = shuffled(in_sequence(n as nat), mid.rng->0, (n - 1) as nat);
            let ready = HeapView { rng: Some(s), ..mid };
            lemma_same_blocks(mid, ready);
            lemma_dealt(ready, c, got->0, order);
        }
    }
}

proof fn lemma_slots(c: int)
    requires
        0 <= c < N_POOLED,
    ensures
        1 <= slots(c) <= 0x1000,
{
    let size = class_size(c);
    assert(1 <= 0x1_0000int / size <= 0x1000) by (nonlinear_arith)
        requires
            16 <= size <= 0x1_0000,
    ;
}

fn size_of_class(c: usize) -> (r: u64)
    requires
        c < N_POOLED,
    ensures
        r == class_size(c as int),
        16 <= r <= SLAB,
{
    if c < 64 {
        16 * (c as u64 + 1)
    } else if c == 64 {
        0x800
    } else if c == 65 {
        0x1000
    } else if c == 66 {
        0x2000
    } else if c == 67 {
        0x4000
    } else if c == 68 {
        0x8000
    } else {
        0x1_0000
    }
}

impl Heap {
    fn top_up(&mut self, c: usize)
        requires
            old(self).wf(),
            old(self)@.base != 0,
            c < CLASSES,
            old(self)@.pools[c as int].len() == 0,
        ensures
            final(self).wf(),
            final(self)@ == old(self)@.topped_up(c as int),
    {
        let ghost before = self@;
        let ghost list0 = before.lists[c as int];
        proof {
            lemma_bounds(before);
            lemma_topped_up(before, c as int);
        }
        assert(list0.take(list0.len() as int) =~= list0);
        let mut i: usize = 0;
        while i < POOL && self.lists[c].len() > 0
            invariant
                c < CLASSES,
                i <= POOL,
                i <= list0.len(),
                list0 == before.lists[c as int],
                before.pools.len() == CLASSES,
                before.lists.len() == CLASSES,
                self.pools@.len() == CLASSES,
                self.lists@.len() == CLASSES,
                self@ == before.with_class(
                    c as int,
                    self@.pools[c as int],
                    self@.lists[c as int],
                ),
                self@.pools[c as int] =~= Seq::new(
                    i as nat,
                    |k: int| list0[list0.len() - 1 - k],
                ),
                self@.lists[c as int] =~= list0.take(list0.len() - i),
            decreases POOL - i,
        {
            let ghost was = self@;
            let list = &mut self.lists[c];
            let got = list.pop();
            if let Some(p) = got {
                let pool = &mut self.pools[c];
                pool.push(p);
                assert(self@.pools =~= was.pools.update(c as int, was.pools[c as int].push(p)));
                assert(self@.lists =~= was.lists.update(
                    c as int,
                    was.lists[c as int].drop_last(),
                ));
            }
            i += 1;
            assert(self@ =~= before.with_class(
                c as int,
                self@.pools[c as int],
                self@.lists[c as int],
            ));
        }
        assert(self@ =~= before.topped_up(c as int));
    }

    /// Candidates for class `c`, which has none
    fn refill(&mut self, c: usize) -> (r: bool)
        requires
            old(self).wf(),
            old(self)@.base != 0,
            old(self)@.rng is Some,
            c < N_POOLED,
            old(self)@.pools[c as int].len() == 0,
        ensures
            final(self).wf(),
            (final(self)@, r) == old(self)@.refilled(c as int),
    {
        proof {
            lemma_bounds(self@);
            lemma_refilled(self@, c as int);
            lemma_slabs_taken(self@, 1, true);
            lemma_slots(c as int);
        }
        if self.lists[c].len() > 0 {
            self.top_up(c);
            return true;
        }
        let slab: u64 = match self.take_slabs(1, true) {
            Some(s) => s,
            None => {
                return false;
            },
        };
        let size: u64 = size_of_class(c);
        let order = self.shuffle(SLAB / size);
        self.deal(c, slab, &order, size);
        true
    }

    /// A block drawn from the candidates of class `c`
    fn pick(&mut self, c: usize) -> (r: u64)
        requires
            old(self).wf(),
            old(self)@.base != 0,
            old(self)@.rng is Some,
            c < N_POOLED,
            old(self)@.pools[c as int].len() > 0,
        ensures
            final(self).wf(),
            (final(self)@, r as int) == old(self)@.picked(c as int),
    {
        let ghost before = self@;
        proof {
            lemma_bounds(before);
            lemma_entries(before, c as int);
            lemma_picked(before, c as int);
        }
        let len: usize = self.pools[c].len();
        assert(len == before.pools[c as int].len());
        let draw: u64 = self.draw_below(2 * len as u64);
        let i: usize = if draw < len as u64 {
            draw as usize
        } else {
            len - 1
        };
        let ghost mid = self@;
        let pool = &mut self.pools[c];
        let p: u64 = pool[i];
        let last: u64 = pool[len - 1];
        pool.set(i, last);
        pool.pop();
        assert(self@.pools =~= mid.pools.update(
            c as int,
            mid.pools[c as int].update(i as int, last).drop_last(),
        ));
        assert(self@.lists =~= mid.lists.update(c as int, mid.lists[c as int]));
        assert(self@ =~= before.picked(c as int).0);
        p
    }

    fn draw(&mut self, c: usize) -> (r: Option<u64>)
        requires
            old(self).wf(),
            old(self)@.base != 0,
            old(self)@.rng is Some,
            c < N_POOLED,
        ensures
            final(self).wf(),
            ({
                let (h, got) = old(self)@.drawn(c as int);
                &&& final(self)@ == h
                &&& match r {
                    Some(a) => got == Some(a as int),
                    None => got is None,
                }
            }),
    {
        proof {
            lemma_bounds(self@);
            lemma_refilled(self@, c as int);
        }
        if self.pools[c].len() == 0 {
            if !self.refill(c) {
                return None;
            }
        }
        Some(self.pick(c))
    }

    fn find_huge(&self, size: u64) -> (r: Option<usize>)
        ensures
            match r {
                Some(i) => i < self@.huge.len() && huge_below(
                    self@.huge,
                    size as int,
                    self@.huge.len() as int,
                ) == Some(i as int),
                None => huge_below(self@.huge, size as int, self@.huge.len() as int) is None,
            },
    {
        let mut i: usize = self.huge.len();
        while i > 0
            invariant
                i <= self.huge@.len(),
                huge_below(self.huge@, size as int, self.huge@.len() as int) == huge_below(
                    self.huge@,
                    size as int,
                    i as int,
                ),
            decreases i,
        {
            if self.huge[i - 1].1 == size {
                return Some(i - 1);
            }
            i -= 1;
        }
        None
    }

    /// A block of a compact layout
    fn take_compact(&mut self, class: Option<usize>, size: u64) -> (r: Option<u64>)
        requires
            old(self).wf(),
            old(self)@.base != 0,
            old(self)@.rng is None,
            class matches Some(c) ==> c < CLASSES && size == class_size(c as int),
            class is None ==> class_of(size as int) == Some((None::<int>, size as int)),
            size % 16 == 0,
            16 <= size,
        ensures
            final(self).wf(),
            ({
                let (h, got) = old(self)@.compact(
                    match class {
                        Some(c) => Some(c as int),
                        None => None,
                    },
                    size as int,
                );
                &&& final(self)@ == h
                &&& match r {
                    Some(a) => got == Some(a as int),
                    None => got is None,
                }
            }),
            r matches Some(a) ==> final(self)@.fits(a as int, size as int),
    {
        let ghost before = self@;
        proof {
            lemma_bounds(before);
        }
        match class {
            Some(c) => {
                let len: usize = self.lists[c].len();
                assert(len == before.lists[c as int].len());
                if len > 0 {
                    proof {
                        lemma_entries(before, c as int);
                    }
                    let list = &mut self.lists[c];
                    let p: u64 = list[len - 1];
                    list.pop();
                    let ghost left = before.lists[c as int].drop_last();
                    proof {
                        assert(self@.lists =~= before.lists.update(c as int, left));
                        assert(self@.pools =~= before.pools.update(
                            c as int,
                            before.pools[c as int],
                        ));
                        assert(self@ =~= before.with_class(
                            c as int,
                            before.pools[c as int],
                            left,
                        ));
                        assert forall|k: int| 0 <= k < left.len() implies before.fits(
                            #[trigger] left[k] as int,
                            class_size(c as int),
                        ) by {
                            assert(left[k] == before.lists[c as int][k]);
                        }
                        lemma_with_class(before, c as int, before.pools[c as int], left);
                        assert(before.fits(
                            before.lists[c as int][len - 1] as int,
                            class_size(c as int),
                        ));
                    }
                    return Some(p);
                }
            },
            None => {
                if let Some(i) = self.find_huge(size) {
                    let p: u64 = self.huge[i].0;
                    self.huge.remove(i);
                    proof {
                        lemma_huge_below(before.huge, size as int, before.huge.len() as int);
                        assert(self@ =~= (HeapView {
                            huge: before.huge.remove(i as int),
                            ..before
                        }));
                        lemma_less_huge(before, i as int);
                    }
                    return Some(p);
                }
            },
        }
        if size > self.base + self.size - self.bump {
            return None;
        }
        let p: u64 = self.bump;
        self.bump = self.bump + size;
        proof {
            assert(self@ =~= (HeapView { bump: (before.bump + size) as u64, ..before }));
            lemma_bumped(before, size as int);
        }
        Some(p)
    }
}

proof fn lemma_huge_below(huge: Seq<(u64, u64)>, size: int, n: int)
    requires
        n <= huge.len(),
    ensures
        huge_below(huge, size, n) matches Some(i) ==> 0 <= i < n && huge[i].1 == size,
    decreases n,
{
    if n > 0 {
        lemma_huge_below(huge, size, n - 1);
    }
}

proof fn lemma_less_huge(h: HeapView, i: int)
    requires
        h.wf(),
        h.base != 0,
        0 <= i < h.huge.len(),
    ensures
        (HeapView { huge: h.huge.remove(i), ..h }).wf(),
        h.fits(h.huge[i].0 as int, h.huge[i].1 as int),
{
    reveal(HeapView::wf);
    let b = HeapView { huge: h.huge.remove(i), ..h };
    assert forall|k: int| #![trigger b.huge[k]] 0 <= k < b.huge.len() implies class_of(
        b.huge[k].1 as int,
    ) == Some((None::<int>, b.huge[k].1 as int)) && b.fits(
        b.huge[k].0 as int,
        b.huge[k].1 as int,
    ) by {
        let j = if k < i {
            k
        } else {
            k + 1
        };
        assert(b.huge[k] == h.huge[j]);
        assert(h.fits(h.huge[j].0 as int, h.huge[j].1 as int));
    }
    lemma_kept(h, b);
}

proof fn lemma_bumped(h: HeapView, size: int)
    requires
        h.wf(),
        h.base != 0,
        h.rng is None,
        0 <= size,
        size % 16 == 0,
        h.bump + size <= h.end(),
    ensures
        (HeapView { bump: (h.bump + size) as u64, ..h }).wf(),
        h.fits(h.bump as int, size),
{
    reveal(HeapView::wf);
    let b = HeapView { bump: (h.bump + size) as u64, ..h };
    lemma_kept(h, b);
    assert forall|k: int| #![trigger b.huge[k]] 0 <= k < b.huge.len() implies class_of(
        b.huge[k].1 as int,
    ) == Some((None::<int>, b.huge[k].1 as int)) && b.fits(
        b.huge[k].0 as int,
        b.huge[k].1 as int,
    ) by {
        assert(h.fits(h.huge[k].0 as int, h.huge[k].1 as int));
    }
}

/// The pools, lists and blocks of a heap stay as they are.
proof fn lemma_kept(h: HeapView, b: HeapView)
    requires
        h.wf(),
        b == (HeapView { huge: b.huge, bump: b.bump, ..h }),
    ensures
        forall|c: int, i: int|
            #![trigger b.pools[c][i]]
            0 <= c < CLASSES && 0 <= i < b.pools[c].len() ==> b.fits(
                b.pools[c][i] as int,
                class_size(c),
            ),
        forall|c: int, i: int|
            #![trigger b.lists[c][i]]
            0 <= c < CLASSES && 0 <= i < b.lists[c].len() ==> b.fits(
                b.lists[c][i] as int,
                class_size(c),
            ),
        forall|p: u64| #![trigger b.blocks[p]] b.blocks.dom().contains(p) ==> b.holds(p),
{
    reveal(HeapView::wf);
    assert forall|c: int, i: int|
        #![trigger b.pools[c][i]]
        0 <= c < CLASSES && 0 <= i < b.pools[c].len() implies b.fits(
        b.pools[c][i] as int,
        class_size(c),
    ) by {
        assert(h.fits(h.pools[c][i] as int, class_size(c)));
    }
    assert forall|c: int, i: int|
        #![trigger b.lists[c][i]]
        0 <= c < CLASSES && 0 <= i < b.lists[c].len() implies b.fits(
        b.lists[c][i] as int,
        class_size(c),
    ) by {
        assert(h.fits(h.lists[c][i] as int, class_size(c)));
    }
    assert forall|p: u64| #![trigger b.blocks[p]] b.blocks.dom().contains(p) implies b.holds(p) by {
        assert(h.holds(p));
    }
}

/// A raw block is where it can be, and the heap stays sound around it.
/// An allocation adds its own block at most.
pub proof fn lemma_blocks_kept(h: HeapView, size: int, align: int)
    requires
        h.wf(),
        0 <= size,
    ensures
        h.allocated(size, align).1 is None ==> h.allocated(size, align).0.blocks == h.blocks,
        forall|p: u64| #[trigger]
            h.blocks.dom().contains(p) ==> h.allocated(size, align).0.blocks.dom().contains(p),
{
    let wanted = HeapView::wanted(size, align);
    if h.base != 0 && 0 <= wanted <= u64::MAX {
        lemma_raw_block(h, wanted);
    }
}

/// A block that is free again is no block.
pub proof fn lemma_freed_blocks(h: HeapView, p: u64)
    ensures
        h.freed(p).blocks == h.blocks.remove(p),
{
}

proof fn lemma_raw_block(h: HeapView, n: int)
    requires
        h.wf(),
        h.base != 0,
        0 <= n <= u64::MAX,
    ensures
        h.raw_block(n).0.base == h.base,
        h.raw_block(n).0.size == h.size,
        h.raw_block(n).0.rng is Some == h.rng is Some,
        h.raw_block(n).0.blocks == h.blocks,
        h.raw_block(n).1 matches Some((a, size)) ==> h.fits(a, size) && n <= size && (class_of(
            n,
        ) matches Some((_, own)) && own == size),
{
    lemma_class_of(n);
    lemma_bounds(h);
    match class_of(n) {
        None => {},
        Some((class, size)) => {
            if h.rng is None {
                match class {
                    Some(c) => {
                        lemma_entries(h, c);
                        if h.lists[c].len() > 0 {
                            assert(h.fits(h.lists[c][h.lists[c].len() - 1] as int, class_size(c)));
                        } else if h.bump + size <= h.end() {
                            lemma_bumped(h, size);
                        }
                    },
                    None => {
                        lemma_huge_below(h.huge, size, h.huge.len() as int);
                        match huge_below(h.huge, size, h.huge.len() as int) {
                            Some(i) => {
                                lemma_less_huge(h, i);
                            },
                            None => {
                                if h.bump + size <= h.end() {
                                    lemma_bumped(h, size);
                                }
                            },
                        }
                    },
                }
            } else if class is Some && class->0 < N_POOLED {
                let c = class->0;
                lemma_refilled(h, c);
                if h.pools[c].len() > 0 {
                    lemma_picked(h, c);
                } else if h.refilled(c).1 {
                    lemma_picked(h.refilled(c).0, c);
                    let mid = h.refilled(c).0;
                    assert(mid.fits(mid.picked(c).1, size));
                    assert(h.fits(mid.picked(c).1, size));
                }
            } else {
                let slabs = up(size, SLAB as int) / (SLAB as int);
                assert(size > SLAB);
                assert(slabs * SLAB == up(size, SLAB as int));
                lemma_slabs_taken(h, slabs, false);
            }
        },
    }
}

/// The heap around a raw block that is free again
proof fn lemma_raw_freed(h: HeapView, raw: int, size: int)
    requires
        h.wf(),
        h.base != 0,
        0 <= size <= u64::MAX,
        h.fits(raw, size),
        class_of(size) matches Some((_, own)) && own == size,
    ensures
        h.raw_freed(raw, size).wf(),
        h.raw_freed(raw, size).blocks == h.blocks,
        h.raw_freed(raw, size).base == h.base,
        h.raw_freed(raw, size).size == h.size,
        h.raw_freed(raw, size).rng == h.rng,
{
    lemma_class_of(size);
    lemma_bounds(h);
    let (class, _) = class_of(size)->0;
    let a = raw as u64;
    if class is Some && (h.rng is None || class->0 < N_POOLED) {
        let c = class->0;
        lemma_entries(h, c);
        let pool = h.pools[c];
        let list = h.lists[c];
        if h.rng is Some && pool.len() < POOL {
            let more = pool.push(a);
            assert forall|i: int| 0 <= i < more.len() implies h.fits(
                #[trigger] more[i] as int,
                class_size(c),
            ) by {
                if i < pool.len() {
                    assert(more[i] == h.pools[c][i]);
                }
            }
            lemma_with_class(h, c, more, list);
        } else {
            let more = list.push(a);
            assert forall|i: int| 0 <= i < more.len() implies h.fits(
                #[trigger] more[i] as int,
                class_size(c),
            ) by {
                if i < list.len() {
                    assert(more[i] == h.lists[c][i]);
                }
            }
            lemma_with_class(h, c, pool, more);
        }
    } else if h.rng is None {
        let b = HeapView { huge: h.huge.push((a, size as u64)), ..h };
        lemma_kept(h, b);
        reveal(HeapView::wf);
        assert forall|k: int| #![trigger b.huge[k]] 0 <= k < b.huge.len() implies class_of(
            b.huge[k].1 as int,
        ) == Some((None::<int>, b.huge[k].1 as int)) && b.fits(
            b.huge[k].0 as int,
            b.huge[k].1 as int,
        ) by {
            if k < h.huge.len() {
                assert(b.huge[k] == h.huge[k]);
                assert(h.fits(h.huge[k].0 as int, h.huge[k].1 as int));
            }
        }
    } else {
        lemma_same_blocks(h, h.raw_freed(raw, size));
    }
}

impl Heap {
    fn take_raw(&mut self, raw_size: u64) -> (r: Option<(u64, u64)>)
        requires
            old(self).wf(),
            old(self)@.base != 0,
        ensures
            final(self).wf(),
            ({
                let (h, got) = old(self)@.raw_block(raw_size as int);
                &&& final(self)@ == h
                &&& match r {
                    Some((a, size)) => got == Some((a as int, size as int)),
                    None => got is None,
                }
            }),
    {
        proof {
            lemma_class_of(raw_size as int);
        }
        let (class, size): (Option<usize>, u64) = match class_for(raw_size) {
            Some(c) => c,
            None => {
                return None;
            },
        };
        let got: Option<u64> = if self.rng.is_none() {
            self.take_compact(class, size)
        } else {
            match class {
                Some(c) if c < N_POOLED => self.draw(c),
                _ => {
                    let n: u64 = size / SLAB + if size % SLAB == 0 {
                        0
                    } else {
                        1
                    };
                    assert(n == up(size as int, SLAB as int) / (SLAB as int));
                    self.take_slabs(n, false)
                },
            }
        };
        match got {
            Some(p) => Some((p, size)),
            None => None,
        }
    }

    fn give_raw(&mut self, raw: u64, size: u64)
        requires
            old(self).wf(),
            old(self)@.base != 0,
            old(self)@.fits(raw as int, size as int),
            class_of(size as int) matches Some((_, own)) && own == size,
        ensures
            final(self).wf(),
            final(self)@ == old(self)@.raw_freed(raw as int, size as int),
    {
        let ghost before = self@;
        proof {
            lemma_class_of(size as int);
            lemma_bounds(before);
            lemma_raw_freed(before, raw as int, size as int);
        }
        let class: Option<usize> = match class_for(size) {
            Some((c, _)) => c,
            None => {
                return;
            },
        };
        let seeded: bool = self.rng.is_some();
        match class {
            Some(c) if !seeded || c < N_POOLED => {
                if seeded && self.pools[c].len() < POOL {
                    let pool = &mut self.pools[c];
                    pool.push(raw);
                    assert(self@.pools =~= before.pools.update(
                        c as int,
                        before.pools[c as int].push(raw),
                    ));
                    assert(self@.lists =~= before.lists.update(c as int, before.lists[c as int]));
                } else {
                    let list = &mut self.lists[c];
                    list.push(raw);
                    assert(self@.lists =~= before.lists.update(
                        c as int,
                        before.lists[c as int].push(raw),
                    ));
                    assert(self@.pools =~= before.pools.update(c as int, before.pools[c as int]));
                }
                assert(self@ =~= before.raw_freed(raw as int, size as int));
            },
            _ => {
                if seeded {
                    let n: u64 = size / SLAB + if size % SLAB == 0 {
                        0
                    } else {
                        1
                    };
                    assert(n == up(size as int, SLAB as int) / (SLAB as int));
                    proof {
                        lemma_part(before, false);
                    }
                    self.mark_slabs((raw - self.base) / SLAB, n, false);
                } else {
                    self.huge.push((raw, size));
                    assert(self@ =~= before.raw_freed(raw as int, size as int));
                }
            },
        }
    }

    /// Allocate `size` bytes at `align`, which is at least 16. None where
    /// there is no region or no room.
    pub fn allocate(&mut self, size: u64, align: u64) -> (r: Option<u64>)
        requires
            old(self).wf(),
            align >= 16,
        ensures
            final(self).wf(),
            (final(self)@, r) == old(self)@.allocated(size as int, align as int),
    {
        broadcast use vstd::std_specs::hash::group_hash_axioms;

        if self.base == 0 {
            return None;
        }
        let ghost before = self@;
        let asked: u64 = if size < 1 {
            1
        } else {
            size
        };
        let slack: u64 = if align > 16 {
            align
        } else {
            0
        };
        if asked > u64::MAX - HEADER || slack > u64::MAX - HEADER - asked {
            return None;
        }
        let wanted: u64 = asked + HEADER + slack;
        proof {
            lemma_raw_block(before, wanted as int);
            lemma_bounds(before);
            lemma_class_of(wanted as int);
        }
        let (raw, got): (u64, u64) = match self.take_raw(wanted) {
            Some(b) => b,
            None => {
                return None;
            },
        };
        let ghost mid = self@;
        proof {
            lemma_payload(raw as int, got as int, asked as int, align as int);
            lemma_span(before, got as int);
        }
        let over: u64 = (raw + HEADER) % align;
        let p: u64 = if over == 0 {
            raw + HEADER
        } else {
            raw + HEADER + (align - over)
        };
        self.blocks.insert(p, (raw, got));
        proof {
            assert(self@ =~= (HeapView { blocks: mid.blocks.insert(p, (raw, got)), ..mid }));
            lemma_block_added(mid, p, raw, got);
        }
        Some(p)
    }

    /// The block at `p` is free again.
    pub fn free(&mut self, p: u64)
        requires
            old(self).wf(),
            old(self)@.blocks.dom().contains(p),
        ensures
            final(self).wf(),
            final(self)@ == old(self)@.freed(p),
    {
        broadcast use vstd::std_specs::hash::group_hash_axioms;

        let ghost before = self@;
        proof {
            lemma_block_removed(before, p);
        }
        if let Some((raw, size)) = self.blocks.remove(&p) {
            assert(self@ =~= (HeapView { blocks: before.blocks.remove(p), ..before }));
            self.give_raw(raw, size);
        }
    }

    /// How much of the block at `p` can be used
    pub fn usable(&self, p: u64) -> (r: u64)
        requires
            self.wf(),
            self@.blocks.dom().contains(p),
        ensures
            r == self@.usable(p),
    {
        broadcast use vstd::std_specs::hash::group_hash_axioms;

        proof {
            reveal(HeapView::wf);
            assert(self@.holds(p));
            lemma_span(self@, self@.blocks[p].1 as int);
        }
        match self.blocks.get(&p) {
            Some(b) => b.0 + b.1 - p,
            None => 0,
        }
    }

    /// Whether a block in use starts at `p`
    pub fn in_use(&self, p: u64) -> (r: bool)
        ensures
            r == self@.blocks.dom().contains(p),
    {
        broadcast use vstd::std_specs::hash::group_hash_axioms;

        self.blocks.contains_key(&p)
    }
}

proof fn lemma_span(h: HeapView, size: int)
    requires
        0 <= size,
    ensures
        size <= h.span(size),
{
}

/// The payload of a block is aligned, behind the header and in the block.
pub proof fn lemma_payload(raw: int, got: int, asked: int, align: int)
    requires
        0 <= raw,
        raw % 16 == 0,
        align >= 16,
        1 <= asked,
        asked + HEADER + (if align > 16 {
            align
        } else {
            0
        }) <= got,
    ensures
        ({
            let p = up(raw + HEADER, align);
            let over = (raw + HEADER) % align;
            &&& p % align == 0
            &&& raw + HEADER <= p
            &&& p + asked <= raw + got
            &&& p == raw + HEADER + (if over == 0 {
                0
            } else {
                align - over
            })
        }),
{
    let x = raw + HEADER;
    let q = x / align;
    let over = x % align;
    vstd::arithmetic::div_mod::lemma_fundamental_div_mod(x, align);
    vstd::arithmetic::div_mod::lemma_mod_bound(x, align);
    assert(x == align * q + over);
    if over == 0 {
        assert((x + align - 1) / align == q) by (nonlinear_arith)
            requires
                x == align * q,
                align >= 16,
        ;
        assert(q * align == align * q) by (nonlinear_arith);
        assert((q * align) % align == 0) by (nonlinear_arith)
            requires
                align >= 16,
        ;
    } else {
        assert((x + align - 1) / align == q + 1) by (nonlinear_arith)
            requires
                x == align * q + over,
                0 < over < align,
                align >= 16,
        ;
        assert((q + 1) * align == align * q + align) by (nonlinear_arith);
        assert(((q + 1) * align) % align == 0) by (nonlinear_arith)
            requires
                align >= 16,
        ;
    }
    if align == 16 {
        assert(over == 0);
    }
}

proof fn lemma_block_added(h: HeapView, p: u64, raw: u64, size: u64)
    requires
        h.wf(),
        h.base != 0,
        class_of(size as int) matches Some((_, own)) && own == size,
        h.fits(raw as int, size as int),
        raw + HEADER <= p < raw + size,
    ensures
        (HeapView { blocks: h.blocks.insert(p, (raw, size)), ..h }).wf(),
{
    let b = HeapView { blocks: h.blocks.insert(p, (raw, size)), ..h };
    lemma_blocks_changed(h, b);
    reveal(HeapView::wf);
    assert forall|q: u64| #![trigger b.blocks[q]] b.blocks.dom().contains(q) implies b.holds(q) by {
        if q != p {
            assert(h.holds(q));
        }
    }
}

proof fn lemma_block_removed(h: HeapView, p: u64)
    requires
        h.wf(),
        h.blocks.dom().contains(p),
    ensures
        (HeapView { blocks: h.blocks.remove(p), ..h }).wf(),
        h.base != 0,
        h.holds(p),
{
    let b = HeapView { blocks: h.blocks.remove(p), ..h };
    reveal(HeapView::wf);
    lemma_blocks_changed(h, b);
    assert(h.holds(p));
    assert forall|q: u64| #![trigger b.blocks[q]] b.blocks.dom().contains(q) implies b.holds(q) by {
        assert(h.holds(q));
    }
}

/// The free blocks stay as they are.
proof fn lemma_blocks_changed(h: HeapView, b: HeapView)
    requires
        h.wf(),
        b == (HeapView { blocks: b.blocks, ..h }),
    ensures
        forall|c: int, i: int|
            #![trigger b.pools[c][i]]
            0 <= c < CLASSES && 0 <= i < b.pools[c].len() ==> b.fits(
                b.pools[c][i] as int,
                class_size(c),
            ),
        forall|c: int, i: int|
            #![trigger b.lists[c][i]]
            0 <= c < CLASSES && 0 <= i < b.lists[c].len() ==> b.fits(
                b.lists[c][i] as int,
                class_size(c),
            ),
        forall|i: int|
            #![trigger b.huge[i]]
            0 <= i < b.huge.len() ==> class_of(b.huge[i].1 as int) == Some(
                (None::<int>, b.huge[i].1 as int),
            ) && b.fits(b.huge[i].0 as int, b.huge[i].1 as int),
{
    reveal(HeapView::wf);
    assert forall|c: int, i: int|
        #![trigger b.pools[c][i]]
        0 <= c < CLASSES && 0 <= i < b.pools[c].len() implies b.fits(
        b.pools[c][i] as int,
        class_size(c),
    ) by {
        assert(h.fits(h.pools[c][i] as int, class_size(c)));
    }
    assert forall|c: int, i: int|
        #![trigger b.lists[c][i]]
        0 <= c < CLASSES && 0 <= i < b.lists[c].len() implies b.fits(
        b.lists[c][i] as int,
        class_size(c),
    ) by {
        assert(h.fits(h.lists[c][i] as int, class_size(c)));
    }
    assert forall|i: int| #![trigger b.huge[i]] 0 <= i < b.huge.len() implies class_of(
        b.huge[i].1 as int,
    ) == Some((None::<int>, b.huge[i].1 as int)) && b.fits(
        b.huge[i].0 as int,
        b.huge[i].1 as int,
    ) by {
        assert(h.fits(h.huge[i].0 as int, h.huge[i].1 as int));
    }
}

} // verus!
