//! The calls of the `malloc` family on a heap. Whoever makes them fills and
//! copies the memory; what is decided here is which block they get.

use vstd::prelude::*;
use crate::errno::Errno;
use crate::heap;
use crate::heap::{is_alignment, stays, Heap, HeapView, PAGE};

verus! {

/// What became of a block that was given back
#[derive(Debug, Clone, Copy, PartialEq, Eq, Structural)]
pub enum Release {
    Freed,
    /// A thread outside the schedule frees whenever real time has it
    /// running. Putting the block back would reorder the free blocks at that
    /// moment, and with them every later address: its bytes are leaked.
    Leaked(u64),
    /// Not a block of this heap
    Elsewhere,
}

/// What becomes of a block that is to have another size
#[derive(Debug, Clone, Copy, PartialEq, Eq, Structural)]
pub enum Resized {
    /// The block does.
    Same,
    /// Copy so many bytes to a block of this heap; the old one is free.
    Moved { to: u64, bytes: u64 },
    /// Copy so many bytes to a block from elsewhere, and give this one back.
    Outside { bytes: u64 },
    /// There is no room, and the block stays as it is.
    Failed,
    /// Not a block of this heap
    Elsewhere,
}

pub open spec fn lesser(a: int, b: int) -> int {
    if a < b {
        a
    } else {
        b
    }
}

impl HeapView {
    /// The address is in the heap's region.
    pub open spec fn has(self, p: u64) -> bool {
        self.base != 0 && self.base <= p < self.end()
    }

    /// An address of the region is that of a block in use, as whoever gives
    /// a block back has it.
    pub open spec fn is_sane(self, p: u64) -> bool {
        self.has(p) ==> self.blocks.dom().contains(p)
    }

    pub open spec fn released(self, p: u64, scheduled: bool) -> (HeapView, Release) {
        if !self.has(p) {
            (self, Release::Elsewhere)
        } else if scheduled {
            (self.freed(p), Release::Freed)
        } else {
            (self, Release::Leaked(self.usable(p) as u64))
        }
    }

    pub open spec fn resized(self, p: u64, size: u64, scheduled: bool) -> (HeapView, Resized) {
        let old = self.usable(p);
        let bytes = lesser(old, size as int) as u64;
        if !self.has(p) {
            (self, Resized::Elsewhere)
        } else if old / 2 <= size <= old {
            (self, Resized::Same)
        } else if !scheduled {
            (self, Resized::Outside { bytes })
        } else {
            match self.allocated(size as int, 16) {
                (h, None) => (h, Resized::Failed),
                (h, Some(to)) => (h.freed(p), Resized::Moved { to, bytes }),
            }
        }
    }

    /// A block for `n` things of `size` bytes
    pub open spec fn for_many(self, n: u64, size: u64) -> (HeapView, Option<u64>) {
        if n * size > u64::MAX {
            (self, None)
        } else {
            self.allocated(n * size, 16)
        }
    }

    /// A block at a multiple of `align`
    pub open spec fn aligned(self, align: u64, size: u64) -> (HeapView, Result<u64, Errno>) {
        if !heap::aligns(align) {
            (self, Err(Errno::Inval))
        } else {
            match self.allocated(
                size as int,
                if align < 16 {
                    16
                } else {
                    align as int
                },
            ) {
                (h, None) => (h, Err(Errno::NoMem)),
                (h, Some(p)) => (h, Ok(p)),
            }
        }
    }
}

impl Heap {
    /// `free`
    pub fn release(&mut self, p: u64, scheduled: bool) -> (r: Release)
        requires
            old(self).wf(),
            old(self)@.is_sane(p),
        ensures
            final(self).wf(),
            (final(self)@, r) == old(self)@.released(p, scheduled),
    {
        if !self.contains(p) {
            return Release::Elsewhere;
        }
        if scheduled {
            self.free(p);
            Release::Freed
        } else {
            Release::Leaked(self.usable(p))
        }
    }

    /// `realloc`. A block is kept while the new size takes at least half of
    /// it.
    pub fn resize(&mut self, p: u64, size: u64, scheduled: bool) -> (r: Resized)
        requires
            old(self).wf(),
            old(self)@.is_sane(p),
        ensures
            final(self).wf(),
            (final(self)@, r) == old(self)@.resized(p, size, scheduled),
    {
        if !self.contains(p) {
            return Resized::Elsewhere;
        }
        let usable: u64 = self.usable(p);
        if stays(usable, size) {
            return Resized::Same;
        }
        let bytes: u64 = if usable < size {
            usable
        } else {
            size
        };
        if !scheduled {
            return Resized::Outside { bytes };
        }
        let ghost before = self@;
        proof {
            heap::lemma_blocks_kept(before, size as int, 16);
        }
        match self.allocate(size, 16) {
            None => Resized::Failed,
            Some(to) => {
                self.free(p);
                Resized::Moved { to, bytes }
            },
        }
    }

    /// `calloc`
    pub fn many(&mut self, n: u64, size: u64) -> (r: Option<u64>)
        requires
            old(self).wf(),
        ensures
            final(self).wf(),
            (final(self)@, r) == old(self)@.for_many(n, size),
    {
        match n.checked_mul(size) {
            None => None,
            Some(total) => self.allocate(total, 16),
        }
    }

    /// `posix_memalign`
    pub fn aligned(&mut self, align: u64, size: u64) -> (r: Result<u64, Errno>)
        requires
            old(self).wf(),
        ensures
            final(self).wf(),
            (final(self)@, r) == old(self)@.aligned(align, size),
    {
        if !is_alignment(align) {
            return Err(Errno::Inval);
        }
        let align: u64 = if align < 16 {
            16
        } else {
            align
        };
        match self.allocate(size, align) {
            None => Err(Errno::NoMem),
            Some(p) => Ok(p),
        }
    }

    /// `valloc`
    pub fn page(&mut self, size: u64) -> (r: Option<u64>)
        requires
            old(self).wf(),
        ensures
            final(self).wf(),
            (final(self)@, r) == old(self)@.allocated(size as int, PAGE as int),
    {
        self.allocate(size, PAGE)
    }
}

/// A call from outside the schedule moves nothing: whatever it frees or
/// resizes, the heap stays as it is, and so does every later address.
pub proof fn outside_calls_change_nothing(h: HeapView, p: u64, size: u64)
    ensures
        h.released(p, false).0 == h,
        h.resized(p, size, false).0 == h,
{
}

/// A resize that finds no room keeps the block, and one that moves it gives
/// it back.
pub proof fn a_resize_loses_no_block(h: HeapView, p: u64, size: u64)
    requires
        h.wf(),
        h.is_sane(p),
        h.has(p),
    ensures
        h.resized(p, size, true).1 == Resized::Failed ==> h.resized(
            p,
            size,
            true,
        ).0.blocks == h.blocks,
        h.resized(p, size, true).1 is Moved ==> h.resized(p, size, true).0.blocks
            == h.allocated(size as int, 16).0.blocks.remove(p),
{
    heap::lemma_blocks_kept(h, size as int, 16);
    if let (a, Some(q)) = h.allocated(size as int, 16) {
        heap::lemma_freed_blocks(a, p);
    }
}

/// A block that is resized stays where it is while it fits and is not less than
/// half used; else as many bytes as both blocks have are moved to one that is as
/// large as asked for.
pub proof fn a_resize_moves_what_both_blocks_have(h: HeapView, p: u64, size: u64)
    requires
        h.wf(),
        h.is_sane(p),
    ensures
        ({
            let (after, r) = h.resized(p, size, true);
            let inside = h.base != 0 && h.base <= p < h.base + h.size;
            let usable = h.blocks[p].0 + h.blocks[p].1 - p;
            &&& r is Elsewhere <==> !inside
            &&& r is Same <==> inside && usable / 2 <= size <= usable
            &&& r is Same ==> after == h
            &&& r is Moved ==> h.allocated(size as int, 16).1 == Some(r->Moved_to) && (
            if usable <= u64::MAX && 0 <= usable {
                r->Moved_bytes == (if usable < size {
                    usable
                } else {
                    size as int
                })
            } else {
                true
            })
            &&& r is Failed ==> h.allocated(size as int, 16).1 is None
        }),
{
}

/// A request for many is one for all of them, and is refused where that is more
/// than can be counted; an alignment that is none is an error, and so is a
/// request that finds no room.
pub proof fn a_request_for_many_is_one_for_all(h: HeapView, n: u64, size: u64, align: u64)
    ensures
        n * size <= u64::MAX ==> h.for_many(n, size) == h.allocated(n * size, 16),
        n * size > u64::MAX ==> h.for_many(n, size) == (h, None::<u64>),
        !heap::aligns(align) ==> h.aligned(align, size) == (h, Err::<u64, Errno>(Errno::Inval)),
        heap::aligns(align) && align >= 16 && h.allocated(size as int, align as int).1 is None
            ==> h.aligned(align, size).1 == Err::<u64, Errno>(Errno::NoMem),
        heap::aligns(align) && align >= 16 && h.allocated(size as int, align as int).1 is Some
            ==> h.aligned(align, size).1 == Ok::<u64, Errno>(
            h.allocated(size as int, align as int).1.unwrap(),
        ),
        heap::aligns(8),
        heap::aligns(16),
        !heap::aligns(0),
        !heap::aligns(4),
{
    vstd::arithmetic::power2::lemma2_to64();
    assert(vstd::arithmetic::power2::pow2(3) == 8);
    assert(vstd::arithmetic::power2::pow2(4) == 16);
}

} // verus!
