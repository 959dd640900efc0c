//! What a heap has room for, and which blocks it uses again.

use vstd::prelude::*;
use super::{HeapView, CLASSES, HEADER, SLAB};
use crate::heap;
use crate::rng;

verus! {

/// A block is no larger than need be: within 16 bytes of a small request, less
/// than twice a larger one, and within a page of one beyond the classes.
pub proof fn a_block_is_no_larger_than_need_be(n: int)
    requires
        1 <= n <= u64::MAX,
    ensures
        heap::class_of(n) matches Some((_, size)) ==> {
            &&& n <= size
            &&& n <= 1024 ==> size < n + 16
            &&& 1024 < n <= 0x10_0000 ==> size < 2 * n
            &&& n > 0x10_0000 ==> size < n + 0x4000
        },
        n + 0x4000 <= u64::MAX ==> heap::class_of(n) is Some,
{
    heap::lemma_class_of(n);
    reveal_with_fuel(heap::class_from, 12);
}

/// A heap without a seed gives what there is room for.
pub proof fn a_compact_heap_gives_what_it_has(h: HeapView, size: u64, align: u64)
    requires
        h.wf(),
        h.base != 0,
        h.rng is None,
        16 <= align,
        ({
            let wanted = size + 32 + align;
            h.bump + 2 * wanted + 0x4000 <= h.end()
        }),
    ensures
        h.allocated(size as int, align as int).1 is Some,
{
    reveal(HeapView::wf);
    let wanted = HeapView::wanted(size as int, align as int);
    assert(1 <= wanted <= size + 32 + align);
    a_block_is_no_larger_than_need_be(wanted);
    heap::lemma_class_of(wanted);
}

/// Without a seed a block that is freed is the next of its size to be used.
#[verifier::rlimit(40)]
pub proof fn what_was_freed_last_is_used_first(h: HeapView, p: u64, size: u64)
    requires
        h.wf(),
        h.base != 0,
        h.rng is None,
        h.blocks.dom().contains(p),
        h.blocks[p].1 <= 0x10_0000,
        0 < size <= 0x10_0000,
        heap::class_of(size + HEADER) == heap::class_of(h.blocks[p].1 as int),
    ensures
        h.freed(p).allocated(size as int, 16).1 == Some((h.blocks[p].0 + 16) as u64),
{
    reveal(HeapView::wf);
    let (raw, got) = h.blocks[p];
    assert(h.holds(p));
    heap::lemma_class_of(got as int);
    heap::lemma_class_of(size + HEADER);
    reveal_with_fuel(heap::class_from, 12);
    let (class, own) = heap::class_of(got as int).unwrap();
    assert(class is Some);
    let c = class.unwrap();
    let after = h.freed(p);
    assert(after.lists[c] == h.lists[c].push(raw));
    assert(after.lists[c].last() == raw);
    assert(raw % 16 == 0);
    assert(heap::up(raw + 16, 16) == raw + 16);
}

proof fn lemma_fit_found(
    slabs: Seq<bool>,
    first: int,
    last: int,
    n: int,
    start: int,
    k: int,
    j: int,
)
    requires
        0 <= last,
        0 <= start <= last,
        0 <= k <= j <= last,
        heap::is_free(slabs, first + (start + j) % (last + 1), n),
    ensures
        heap::fit_from(slabs, first, last, n, start, k) is Some,
    decreases last + 1 - k,
{
    if !heap::is_free(slabs, first + (start + k) % (last + 1), n) {
        lemma_fit_found(slabs, first, last, n, start, k + 1, j);
    }
}

/// Slabs are found where they are free: small blocks take theirs in the window,
/// others beside it, and as long as so many in a row are free there, some are
/// found.
#[verifier::rlimit(40)]
pub proof fn slabs_are_found_where_they_are_free(h: HeapView, n: int, pooled: bool, at: int)
    requires
        h.wf(),
        h.base != 0,
        h.rng is Some,
        1 <= n,
        0 <= at,
        at + n <= h.slabs.len(),
        forall|i: int| at <= i < at + n ==> !#[trigger] h.slabs[i],
        pooled ==> h.window.0 <= at && at + n <= h.window.0 + h.window.1,
        !pooled && h.window.0 == 0 ==> h.window.1 <= at,
        !pooled && h.window.0 != 0 ==> at + n <= h.window.0,
    ensures
        h.slabs_taken(n, pooled).1 is Some,
        h.slabs_taken(n, pooled).1 matches Some(a) ==> {
            let got = (a - h.base) / (SLAB as int);
            forall|i: int|
                got <= i < got + n ==> !#[trigger] h.slabs[i] && h.slabs_taken(
                    n,
                    pooled,
                ).0.slabs[i]
        },
{
    heap::lemma_part(h, pooled);
    heap::lemma_slabs_taken(h, n, pooled);
    let (first, len) = h.part_for(pooled);
    let last = len - n;
    assert(first <= at && at + n <= first + len);
    assert(0 <= last);
    let s = h.rng->0;
    heap::lemma_try_from(h.slabs, s, first, last, n, 0);
    heap::lemma_drawn_at(s, first, last, 16);
    let start = heap::drawn_at(s, first, last, 16) - first;
    let d = at - first;
    let j = if d >= start {
        d - start
    } else {
        d - start + last + 1
    };
    assert((start + j) % (last + 1) == d) by {
        if d >= start {
            vstd::arithmetic::div_mod::lemma_small_mod(d as nat, (last + 1) as nat);
        } else {
            vstd::arithmetic::div_mod::lemma_mod_add_multiples_vanish(d, last + 1);
            vstd::arithmetic::div_mod::lemma_small_mod(d as nat, (last + 1) as nat);
            assert(start + j == (last + 1) + d);
        }
    }
    assert(heap::is_free(h.slabs, at, n));
    lemma_fit_found(h.slabs, first, last, n, start, 0, j);
    heap::lemma_fit_from(h.slabs, first, last, n, start, 0);
    let found = heap::found_at(h, n, pooled).unwrap();
    assert(heap::is_free(h.slabs, found, n));
    let a = h.slabs_taken(n, pooled).1.unwrap();
    assert(a == h.base + found * SLAB);
    assert((a - h.base) / (SLAB as int) == found);
    assert(0 <= found && found + n <= h.slabs.len());
}

/// Where a seeded heap takes a small block from: one of its candidates, by one
/// draw; each of the first comes up as often as any other, and the last one as
/// often as all of them. The rest stay candidates.
#[verifier::rlimit(40)]
pub proof fn a_draw_decides_which_candidate(h: HeapView, c: int, j: int)
    requires
        h.wf(),
        h.rng is Some,
        0 <= c < CLASSES,
        h.pools[c].len() > 0,
        0 <= j < h.pools[c].len(),
    ensures
        ({
            let (after, got) = h.picked(c);
            let len = h.pools[c].len() as int;
            let draw = (rng::output(h.rng->0) as int * (2 * len)) / 0x1_0000_0000_0000_0000;
            let i = if draw < len {
                draw
            } else {
                len - 1
            };
            &&& 0 <= draw < 2 * len
            &&& got == h.pools[c][i]
            &&& after.pools[c].len() == len - 1
            &&& j != i ==> after.pools[c].contains(h.pools[c][j])
            &&& after.lists == h.lists
            &&& after.rng == Some(rng::advanced(h.rng->0))
        }),
{
    reveal(HeapView::wf);
    let pool = h.pools[c];
    let len = pool.len() as int;
    assert(h.pools[c].len() <= super::POOL);
    rng::lemma_scaled_below(rng::output(h.rng->0), (2 * len) as u64);
    let (after, got) = h.picked(c);
    let draw = rng::scaled(rng::output(h.rng->0), (2 * len) as u64);
    let i = if draw < len {
        draw
    } else {
        len - 1
    };
    let left = after.pools[c];
    assert(left == pool.update(i, pool[len - 1]).drop_last());
    if j != i {
        if j < len - 1 {
            assert(left[j] == pool[j]);
        } else {
            assert(left[i] == pool[len - 1]);
        }
    }
    assert(after.lists =~= h.lists);
}

/// A seeded heap gives a small block wherever one is at hand: a candidate, one
/// of the free list, or a slab that is free in the window.
pub proof fn a_small_block_is_given_where_one_is(h: HeapView, c: int, at: int)
    requires
        h.wf(),
        h.base != 0,
        h.rng is Some,
        0 <= c < CLASSES,
        h.pools[c].len() > 0 || h.lists[c].len() > 0 || (0 <= at < h.slabs.len() && !h.slabs[at]
            && h.window.0 <= at < h.window.0 + h.window.1),
    ensures
        h.drawn(c).1 is Some,
{
    if h.pools[c].len() == 0 && h.lists[c].len() == 0 {
        slabs_are_found_where_they_are_free(h, 1, true, at);
    }
}

/// A shuffle draws each place: the last place gets the element that its draw
/// names, and the places before it are shuffled among what is left.
pub proof fn a_shuffle_draws_each_place(order: Seq<u64>, s: Seq<u64>, i: nat)
    requires
        0 < i < order.len() <= 0x1_0000,
    ensures
        ({
            let j = (rng::output(s) as int * (i + 1)) / 0x1_0000_0000_0000_0000;
            let after = heap::shuffled(order, s, i).0;
            &&& 0 <= j <= i
            &&& after.len() == order.len()
            &&& after[i as int] == order[j]
        }),
{
    rng::lemma_scaled_below(rng::output(s), (i + 1) as u64);
    let j = rng::scaled(rng::output(s), (i + 1) as u64);
    let once = heap::swapped(order, i as int, j);
    lemma_rest_stays(once, rng::advanced(s), (i - 1) as nat, i as int);
}

proof fn lemma_rest_stays(order: Seq<u64>, s: Seq<u64>, i: nat, k: int)
    requires
        i < k < order.len() <= 0x1_0000,
    ensures
        heap::shuffled(order, s, i).0.len() == order.len(),
        heap::shuffled(order, s, i).0[k] == order[k],
    decreases i,
{
    if i > 0 {
        rng::lemma_scaled_below(rng::output(s), (i + 1) as u64);
        let j = rng::scaled(rng::output(s), (i + 1) as u64);
        let once = heap::swapped(order, i as int, j);
        assert(once[k] == order[k]);
        lemma_rest_stays(once, rng::advanced(s), (i - 1) as nat, k);
    }
}

/// Slabs are taken where the first draw says, where those are free.
pub proof fn the_first_draw_decides_where_it_can(h: HeapView, n: int, pooled: bool)
    requires
        h.wf(),
        h.base != 0,
        h.rng is Some,
        1 <= n <= h.part_for(pooled).1,
        ({
            let (first, len) = h.part_for(pooled);
            let at = first + (rng::output(h.rng->0) as int * (len - n + 1))
                / 0x1_0000_0000_0000_0000;
            forall|i: int| at <= i < at + n ==> !#[trigger] h.slabs[i]
        }),
    ensures
        ({
            let (first, len) = h.part_for(pooled);
            let at = first + (rng::output(h.rng->0) as int * (len - n + 1))
                / 0x1_0000_0000_0000_0000;
            h.slabs_taken(n, pooled).1 == Some(h.base + at * SLAB)
        }),
{
    heap::lemma_part(h, pooled);
    let (first, len) = h.part_for(pooled);
    let s = h.rng->0;
    let last = len - n;
    reveal_with_fuel(heap::try_from, 2);
    assert(rng::state_after(s, 0) == s);
    assert(heap::drawn_at(s, first, last, 0) == first + (rng::output(s) as int * (len - n + 1))
        / 0x1_0000_0000_0000_0000);
    assert(heap::is_free(h.slabs, heap::drawn_at(s, first, last, 0), n));
}

/// The window of the small blocks is at one end of the region, by one draw, and
/// is a quarter of it at most.
pub proof fn the_window_is_at_one_end(h: HeapView, base: u64)
    requires
        h.wf(),
        h.base == 0,
        h.rng is Some,
    ensures
        ({
            let m = h.mapped(base);
            let n = h.size as int / 0x1_0000;
            &&& m.base == base
            &&& m.slabs.len() == n
            &&& forall|i: int| 0 <= i < n ==> !#[trigger] m.slabs[i]
            &&& 4 * m.window.1 <= n
            &&& m.window.1 <= 0x10_0000
            &&& m.window.1 == 0x10_0000 || 4 * (m.window.1 + 1) > n
            &&& m.window.0 == 0 <==> rng::output(h.rng->0) < 0x8000_0000_0000_0000 || m.window.1
                == n
            &&& m.window.0 != 0 ==> m.window.0 + m.window.1 == n
        }),
{
    reveal(HeapView::wf);
    rng::lemma_scaled_below(rng::output(h.rng->0), 2);
}

/// A small block that is freed is at hand again, as a candidate or in the free
/// list of its class.
pub proof fn a_freed_small_block_is_at_hand(h: HeapView, p: u64)
    requires
        h.wf(),
        h.base != 0,
        h.rng is Some,
        h.blocks.dom().contains(p),
        h.blocks[p].1 <= 0x1_0000,
    ensures
        ({
            let raw = h.blocks[p].0;
            let c = heap::class_of(h.blocks[p].1 as int).unwrap().0.unwrap();
            let after = h.freed(p);
            &&& 0 <= c < CLASSES
            &&& heap::class_size(c) == h.blocks[p].1
            &&& after.pools[c].contains(raw) || after.lists[c].contains(raw)
        }),
{
    reveal(HeapView::wf);
    let (raw, got) = h.blocks[p];
    assert(h.holds(p));
    heap::lemma_class_of(got as int);
    reveal_with_fuel(heap::class_from, 12);
    let c = heap::class_of(got as int).unwrap().0.unwrap();
    let after = h.freed(p);
    assert(c < 70);
    if h.pools[c].len() < super::POOL {
        assert(after.pools[c] == h.pools[c].push(raw));
        assert(after.pools[c][h.pools[c].len() as int] == raw);
    } else {
        assert(after.lists[c] == h.lists[c].push(raw));
        assert(after.lists[c][h.lists[c].len() as int] == raw);
    }
}

} // verus!
