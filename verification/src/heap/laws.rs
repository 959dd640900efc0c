//! What holds of every heap: blocks never overlap, whatever the order of
//! requests and whatever the seed.

use vstd::prelude::*;
use crate::heap;
use crate::heap::{HeapView, CLASSES, HEADER, N_POOLED, POOL, SLAB};

verus! {

/// Where a block stands in the books
pub enum Place {
    /// Entry `i` of a class's free blocks
    Listed(int, int),
    /// Entry `i` of a class's candidates
    Candidate(int, int),
    /// Entry `i` of the free blocks of whole pages
    Huge(int),
    /// In use, with this payload
    Used(u64),
    /// Between the books
    Out,
}

/// Whose a byte is: the block's start, its size and its place
pub type Owner = spec_fn(int) -> Option<(int, int, Place)>;

/// Every byte that is set aside for a block is its own.
pub open spec fn owned(h: HeapView, o: Owner, a: int, size: int, place: Place) -> bool {
    forall|u: int| a <= u < a + h.span(size) ==> #[trigger] o(u) == Some((a, size, place))
}

/// The bytes of slab `i`
pub open spec fn in_slab(h: HeapView, i: int, u: int) -> bool {
    h.base + i * SLAB <= u < h.base + (i + 1) * SLAB
}

/// What was never handed out, or is a slab that is not taken, is nobody's.
pub open spec fn rest_is_free(h: HeapView, o: Owner) -> bool {
    if h.rng is Some {
        forall|i: int, u: int|
            0 <= i < h.slabs.len() && !#[trigger] h.slabs[i] && in_slab(h, i, u) ==> #[trigger] o(u)
                is None
    } else {
        forall|u: int| h.bump <= u ==> #[trigger] o(u) is None
    }
}

/// The owners are those that the books say.
pub open spec fn owners_of(h: HeapView, o: Owner) -> bool {
    &&& h.wf()
    &&& forall|c: int, i: int|
        #![trigger h.lists[c][i]]
        0 <= c < CLASSES && 0 <= i < h.lists[c].len() ==> owned(
            h,
            o,
            h.lists[c][i] as int,
            heap::class_size(c),
            Place::Listed(c, i),
        )
    &&& forall|c: int, i: int|
        #![trigger h.pools[c][i]]
        0 <= c < CLASSES && 0 <= i < h.pools[c].len() ==> owned(
            h,
            o,
            h.pools[c][i] as int,
            heap::class_size(c),
            Place::Candidate(c, i),
        )
    &&& forall|i: int|
        #![trigger h.huge[i]]
        0 <= i < h.huge.len() ==> owned(
            h,
            o,
            h.huge[i].0 as int,
            h.huge[i].1 as int,
            Place::Huge(i),
        )
    &&& forall|p: u64|
        #![trigger h.blocks[p]]
        h.blocks.dom().contains(p) ==> owned(
            h,
            o,
            h.blocks[p].0 as int,
            h.blocks[p].1 as int,
            Place::Used(p),
        )
    &&& rest_is_free(h, o)
}

/// No byte of the heap is set aside twice.
pub open spec fn sound(h: HeapView) -> bool {
    exists|o: Owner| owners_of(h, o)
}

/// With every place renamed
pub open spec fn renamed(o: Owner, f: spec_fn(Place, int) -> Place) -> Owner {
    |u: int|
        match o(u) {
            Some((a, size, place)) => Some((a, size, f(place, a))),
            None => None,
        }
}

proof fn lemma_renamed(
    h: HeapView,
    after: HeapView,
    o: Owner,
    f: spec_fn(Place, int) -> Place,
    a: int,
    size: int,
    place: Place,
)
    requires
        owned(h, o, a, size, place),
        after.rng is Some == h.rng is Some,
    ensures
        owned(after, renamed(o, f), a, size, f(place, a)),
{
    assert forall|u: int| a <= u < a + after.span(size) implies #[trigger] renamed(o, f)(u) == Some(
        (a, size, f(place, a)),
    ) by {
        assert(o(u) == Some((a, size, place)));
    }
}

/// Two blocks that share a byte are one.
proof fn lemma_one_owner(
    h: HeapView,
    o: Owner,
    u: int,
    a: int,
    size: int,
    place: Place,
    b: int,
    other: int,
    elsewhere: Place,
)
    requires
        owned(h, o, a, size, place),
        owned(h, o, b, other, elsewhere),
        a <= u < a + h.span(size),
        b <= u < b + h.span(other),
    ensures
        a == b,
        size == other,
        place == elsewhere,
{
    assert(o(u) == Some((a, size, place)));
    assert(o(u) == Some((b, other, elsewhere)));
}

/// Blocks in use never overlap: two payloads are of two raw blocks that
/// share no byte.
pub proof fn live_blocks_never_overlap(h: HeapView, p: u64, q: u64)
    requires
        sound(h),
        h.blocks.dom().contains(p),
        h.blocks.dom().contains(q),
        p != q,
    ensures
        h.blocks[p].0 + h.blocks[p].1 <= h.blocks[q].0 || h.blocks[q].0 + h.blocks[q].1
            <= h.blocks[p].0,
{
    let o = choose|o: Owner| owners_of(h, o);
    let (a, s) = h.blocks[p];
    let (b, t) = h.blocks[q];
    reveal(HeapView::wf);
    assert(h.holds(p) && h.holds(q));
    if a + s > b && b + t > a {
        let u = if a < b {
            b as int
        } else {
            a as int
        };
        lemma_one_owner(
            h,
            o,
            u,
            a as int,
            s as int,
            Place::Used(p),
            b as int,
            t as int,
            Place::Used(q),
        );
    }
}

/// A heap that just got its region is sound.
pub proof fn a_new_heap_is_sound(h: HeapView, base: u64)
    requires
        h.wf(),
        h.base == 0,
        h.mapped(base).wf(),
    ensures
        sound(h.mapped(base)),
{
    reveal(HeapView::wf);
    let none: Owner = |u: int| None::<(int, int, Place)>;
    let b = h.mapped(base);
    assert forall|c: int, i: int|
        #![trigger b.lists[c][i]]
        0 <= c < CLASSES && 0 <= i < b.lists[c].len() implies owned(
        b,
        none,
        b.lists[c][i] as int,
        heap::class_size(c),
        Place::Listed(c, i),
    ) by {
        assert(b.lists[c] == Seq::<u64>::empty());
    }
    assert forall|c: int, i: int|
        #![trigger b.pools[c][i]]
        0 <= c < CLASSES && 0 <= i < b.pools[c].len() implies owned(
        b,
        none,
        b.pools[c][i] as int,
        heap::class_size(c),
        Place::Candidate(c, i),
    ) by {
        assert(b.pools[c] == Seq::<u64>::empty());
    }
    assert(owners_of(b, none));
}

/// The books stay as they are.
proof fn lemma_same_books(h: HeapView, b: HeapView, o: Owner)
    requires
        owners_of(h, o),
        b.wf(),
        b == (HeapView { rng: b.rng, slabs: b.slabs, ..h }),
        b.rng is Some == h.rng is Some,
        rest_is_free(b, o),
    ensures
        owners_of(b, o),
{
    assert forall|a: int, size: int, place: Place| owned(h, o, a, size, place) implies #[trigger]
    owned(b, o, a, size, place) by {}
    lemma_carried(h, b, o, o);
}

/// Taking slabs that nobody has changes no owner, and they are nobody's.
proof fn lemma_taken(h: HeapView, o: Owner, n: int, pooled: bool)
    requires
        owners_of(h, o),
        h.base != 0,
        h.rng is Some,
        1 <= n,
    ensures
        owners_of(h.slabs_taken(n, pooled).0, o),
        h.slabs_taken(n, pooled).1 matches Some(a) ==> forall|u: int|
            a <= u < a + n * SLAB ==> #[trigger] o(u) is None,
{
    heap::lemma_slabs_taken(h, n, pooled);
    heap::lemma_part(h, pooled);
    let (after, got) = h.slabs_taken(n, pooled);
    assert forall|i: int, u: int|
        0 <= i < after.slabs.len() && !#[trigger] after.slabs[i] && in_slab(
            after,
            i,
            u,
        ) implies #[trigger] o(u) is None by {
        assert(!h.slabs[i]);
        assert(in_slab(h, i, u));
    }
    lemma_same_books(h, after, o);
    if got is Some {
        let a = got->0;
        let at = (a - h.base) / (SLAB as int);
        assert forall|u: int| a <= u < a + n * SLAB implies #[trigger] o(u) is None by {
            let i = (u - h.base) / (SLAB as int);
            assert(at <= i < at + n);
            assert(in_slab(h, i, u));
            assert(!h.slabs[i]);
        }
    }
}

/// The owners with a new block's bytes given to it
pub open spec fn given(o: Owner, a: int, span: int, size: int, place: Place) -> Owner {
    |u: int|
        if a <= u < a + span {
            Some((a, size, place))
        } else {
            o(u)
        }
}

/// Bytes that were nobody's are given away.
proof fn lemma_given(h: HeapView, o: Owner, a: int, span: int, size: int)
    requires
        owners_of(h, o),
        forall|u: int| a <= u < a + span ==> #[trigger] o(u) is None,
        h.rng is Some ==> forall|i: int, u: int|
            0 <= i < h.slabs.len() && !#[trigger] h.slabs[i] && a <= u < a + span
                ==> !#[trigger] in_slab(h, i, u),
        h.rng is None ==> a + span <= h.bump,
    ensures
        owners_of(h, given(o, a, span, size, Place::Out)),
{
    let g = given(o, a, span, size, Place::Out);
    assert forall|b: int, t: int, place: Place| owned(h, o, b, t, place) implies #[trigger] owned(
        h,
        g,
        b,
        t,
        place,
    ) by {
        assert forall|u: int| b <= u < b + h.span(t) implies #[trigger] g(u) == Some(
            (b, t, place),
        ) by {
            assert(o(u) == Some((b, t, place)));
        }
    }
    assert(rest_is_free(h, g)) by {
        if h.rng is Some {
            assert forall|i: int, u: int|
                0 <= i < h.slabs.len() && !#[trigger] h.slabs[i] && in_slab(
                    h,
                    i,
                    u,
                ) implies #[trigger] g(u) is None by {
                assert(o(u) is None);
            }
        } else {
            assert forall|u: int| h.bump <= u implies #[trigger] g(u) is None by {
                assert(o(u) is None);
            }
        }
    }
    lemma_carried(h, h, o, g);
}

/// What the books of `h` say of the owners, other owners say of `b`, which
/// has the same books.
proof fn lemma_carried(h: HeapView, b: HeapView, o: Owner, g: Owner)
    requires
        owners_of(h, o),
        b.wf(),
        b.lists == h.lists,
        b.pools == h.pools,
        b.huge == h.huge,
        b.blocks == h.blocks,
        forall|a: int, size: int, place: Place|
            owned(h, o, a, size, place) ==> #[trigger] owned(b, g, a, size, place),
        rest_is_free(b, g),
    ensures
        owners_of(b, g),
{
    assert forall|c: int, i: int|
        #![trigger b.lists[c][i]]
        0 <= c < CLASSES && 0 <= i < b.lists[c].len() implies owned(
        b,
        g,
        b.lists[c][i] as int,
        heap::class_size(c),
        Place::Listed(c, i),
    ) by {
        assert(owned(h, o, h.lists[c][i] as int, heap::class_size(c), Place::Listed(c, i)));
    }
    assert forall|c: int, i: int|
        #![trigger b.pools[c][i]]
        0 <= c < CLASSES && 0 <= i < b.pools[c].len() implies owned(
        b,
        g,
        b.pools[c][i] as int,
        heap::class_size(c),
        Place::Candidate(c, i),
    ) by {
        assert(owned(h, o, h.pools[c][i] as int, heap::class_size(c), Place::Candidate(c, i)));
    }
    assert forall|i: int| #![trigger b.huge[i]] 0 <= i < b.huge.len() implies owned(
        b,
        g,
        b.huge[i].0 as int,
        b.huge[i].1 as int,
        Place::Huge(i),
    ) by {
        assert(owned(h, o, h.huge[i].0 as int, h.huge[i].1 as int, Place::Huge(i)));
    }
    assert forall|p: u64| #![trigger b.blocks[p]] b.blocks.dom().contains(p) implies owned(
        b,
        g,
        b.blocks[p].0 as int,
        b.blocks[p].1 as int,
        Place::Used(p),
    ) by {
        assert(owned(h, o, h.blocks[p].0 as int, h.blocks[p].1 as int, Place::Used(p)));
    }
}

/// The place is in the books of class `c`.
pub open spec fn is_of_class(place: Place, c: int) -> bool {
    match place {
        Place::Listed(k, _) => k == c,
        Place::Candidate(k, _) => k == c,
        _ => false,
    }
}

/// The books of one class changed.
proof fn lemma_class_carried(
    h: HeapView,
    b: HeapView,
    o: Owner,
    g: Owner,
    c: int,
    pool: Seq<u64>,
    list: Seq<u64>,
)
    requires
        owners_of(h, o),
        b.wf(),
        0 <= c < CLASSES,
        h.lists.len() == CLASSES,
        h.pools.len() == CLASSES,
        b.lists == h.lists.update(c, list),
        b.pools == h.pools.update(c, pool),
        b.huge == h.huge,
        b.blocks == h.blocks,
        forall|a: int, size: int, place: Place|
            owned(h, o, a, size, place) && !is_of_class(place, c) && !(place is Out)
                ==> #[trigger] owned(b, g, a, size, place),
        forall|i: int|
            #![trigger pool[i]]
            0 <= i < pool.len() ==> owned(
                b,
                g,
                pool[i] as int,
                heap::class_size(c),
                Place::Candidate(c, i),
            ),
        forall|i: int|
            #![trigger list[i]]
            0 <= i < list.len() ==> owned(
                b,
                g,
                list[i] as int,
                heap::class_size(c),
                Place::Listed(c, i),
            ),
        rest_is_free(b, g),
    ensures
        owners_of(b, g),
{
    assert forall|k: int, i: int|
        #![trigger b.lists[k][i]]
        0 <= k < CLASSES && 0 <= i < b.lists[k].len() implies owned(
        b,
        g,
        b.lists[k][i] as int,
        heap::class_size(k),
        Place::Listed(k, i),
    ) by {
        if k == c {
            assert(b.lists[k][i] == list[i]);
        } else {
            assert(b.lists[k] == h.lists[k]);
            assert(owned(h, o, h.lists[k][i] as int, heap::class_size(k), Place::Listed(k, i)));
        }
    }
    assert forall|k: int, i: int|
        #![trigger b.pools[k][i]]
        0 <= k < CLASSES && 0 <= i < b.pools[k].len() implies owned(
        b,
        g,
        b.pools[k][i] as int,
        heap::class_size(k),
        Place::Candidate(k, i),
    ) by {
        if k == c {
            assert(b.pools[k][i] == pool[i]);
        } else {
            assert(b.pools[k] == h.pools[k]);
            assert(owned(h, o, h.pools[k][i] as int, heap::class_size(k), Place::Candidate(k, i)));
        }
    }
    assert forall|i: int| #![trigger b.huge[i]] 0 <= i < b.huge.len() implies owned(
        b,
        g,
        b.huge[i].0 as int,
        b.huge[i].1 as int,
        Place::Huge(i),
    ) by {
        assert(owned(h, o, h.huge[i].0 as int, h.huge[i].1 as int, Place::Huge(i)));
    }
    assert forall|p: u64| #![trigger b.blocks[p]] b.blocks.dom().contains(p) implies owned(
        b,
        g,
        b.blocks[p].0 as int,
        b.blocks[p].1 as int,
        Place::Used(p),
    ) by {
        assert(owned(h, o, h.blocks[p].0 as int, h.blocks[p].1 as int, Place::Used(p)));
    }
}

/// Renaming gives nobody's bytes to nobody.
proof fn lemma_renamed_rest(h: HeapView, b: HeapView, o: Owner, f: spec_fn(Place, int) -> Place)
    requires
        rest_is_free(h, o),
        b.rng is Some == h.rng is Some,
        b.slabs == h.slabs,
        b.base == h.base,
        b.bump >= h.bump,
    ensures
        rest_is_free(b, renamed(o, f)),
{
    let g = renamed(o, f);
    if h.rng is Some {
        assert forall|i: int, u: int|
            0 <= i < b.slabs.len() && !#[trigger] b.slabs[i] && in_slab(b, i, u) implies #[trigger] g(
            u,
        ) is None by {
            assert(in_slab(h, i, u) && !h.slabs[i]);
            assert(o(u) is None);
        }
    } else {
        assert forall|u: int| b.bump <= u implies #[trigger] g(u) is None by {
            assert(o(u) is None);
        }
    }
}

/// A class changed its books and nothing else: the owners of the rest stay.
proof fn lemma_renamed_others(
    h: HeapView,
    b: HeapView,
    o: Owner,
    f: spec_fn(Place, int) -> Place,
    c: int,
)
    requires
        b.rng is Some == h.rng is Some,
        forall|place: Place, a: int|
            !is_of_class(place, c) && !(place is Out) ==> #[trigger] f(place, a) == place,
    ensures
        forall|a: int, size: int, place: Place|
            owned(h, o, a, size, place) && !is_of_class(place, c) && !(place is Out)
                ==> #[trigger] owned(b, renamed(o, f), a, size, place),
{
    assert forall|a: int, size: int, place: Place|
        owned(h, o, a, size, place) && !is_of_class(place, c) && !(place is Out) implies #[trigger]
    owned(b, renamed(o, f), a, size, place) by {
        lemma_renamed(h, b, o, f, a, size, place);
        assert(f(place, a) == place);
    }
}

proof fn lemma_topped_up(h: HeapView, o: Owner, c: int) -> (g: Owner)
    requires
        owners_of(h, o),
        h.base != 0,
        0 <= c < CLASSES,
        h.pools[c].len() == 0,
    ensures
        owners_of(h.topped_up(c), g),
{
    heap::lemma_bounds(h);
    heap::lemma_topped_up(h, c);
    let b = h.topped_up(c);
    let list = h.lists[c];
    let len = list.len() as int;
    let m = if len < POOL {
        len
    } else {
        POOL as int
    };
    let f = |place: Place, a: int|
        match place {
            Place::Listed(k, i) => if k == c && i >= len - m {
                Place::Candidate(c, len - 1 - i)
            } else {
                place
            },
            _ => place,
        };
    let g = renamed(o, f);
    lemma_renamed_rest(h, b, o, f);
    lemma_renamed_others(h, b, o, f, c);
    let pool = b.pools[c];
    let rest = b.lists[c];
    assert forall|i: int| #![trigger pool[i]] 0 <= i < pool.len() implies owned(
        b,
        g,
        pool[i] as int,
        heap::class_size(c),
        Place::Candidate(c, i),
    ) by {
        let j = len - 1 - i;
        assert(pool[i] == h.lists[c][j]);
        lemma_renamed(
            h,
            b,
            o,
            f,
            h.lists[c][j] as int,
            heap::class_size(c),
            Place::Listed(c, j),
        );
    }
    assert forall|i: int| #![trigger rest[i]] 0 <= i < rest.len() implies owned(
        b,
        g,
        rest[i] as int,
        heap::class_size(c),
        Place::Listed(c, i),
    ) by {
        assert(rest[i] == h.lists[c][i]);
        lemma_renamed(
            h,
            b,
            o,
            f,
            h.lists[c][i] as int,
            heap::class_size(c),
            Place::Listed(c, i),
        );
    }
    lemma_class_carried(h, b, o, g, c, pool, rest);
    g
}

proof fn lemma_picked(h: HeapView, o: Owner, c: int) -> (g: Owner)
    requires
        owners_of(h, o),
        h.base != 0,
        h.rng is Some,
        0 <= c < N_POOLED,
        h.pools[c].len() > 0,
    ensures
        owners_of(h.picked(c).0, g),
        owned(h.picked(c).0, g, h.picked(c).1, heap::class_size(c), Place::Out),
{
    heap::lemma_bounds(h);
    heap::lemma_entries(h, c);
    heap::lemma_picked(h, c);
    let (b, p) = h.picked(c);
    let pool = h.pools[c];
    let len = pool.len() as int;
    let draw = crate::rng::scaled(crate::rng::output(h.rng->0), (2 * len) as u64);
    crate::rng::lemma_scaled_below(crate::rng::output(h.rng->0), (2 * len) as u64);
    let i = if draw < len {
        draw
    } else {
        len - 1
    };
    let f = |place: Place, a: int|
        match place {
            Place::Candidate(k, j) => if k == c && j == i {
                Place::Out
            } else if k == c && j == len - 1 {
                Place::Candidate(c, i)
            } else {
                place
            },
            _ => place,
        };
    let g = renamed(o, f);
    lemma_renamed_rest(h, b, o, f);
    lemma_renamed_others(h, b, o, f, c);
    let left = b.pools[c];
    let list = b.lists[c];
    assert forall|k: int| #![trigger left[k]] 0 <= k < left.len() implies owned(
        b,
        g,
        left[k] as int,
        heap::class_size(c),
        Place::Candidate(c, k),
    ) by {
        let j = if k == i {
            len - 1
        } else {
            k
        };
        assert(left[k] == h.pools[c][j]);
        lemma_renamed(
            h,
            b,
            o,
            f,
            h.pools[c][j] as int,
            heap::class_size(c),
            Place::Candidate(c, j),
        );
    }
    assert forall|k: int| #![trigger list[k]] 0 <= k < list.len() implies owned(
        b,
        g,
        list[k] as int,
        heap::class_size(c),
        Place::Listed(c, k),
    ) by {
        assert(list[k] == h.lists[c][k]);
        lemma_renamed(h, b, o, f, h.lists[c][k] as int, heap::class_size(c), Place::Listed(c, k));
    }
    assert(p == h.pools[c][i]);
    lemma_renamed(h, b, o, f, h.pools[c][i] as int, heap::class_size(c), Place::Candidate(c, i));
    lemma_class_carried(h, b, o, g, c, left, list);
    g
}

/// Where slot `k` of a slab goes when it is dealt out, in place `j` of the
/// order
pub open spec fn dealt_to(c: int, order: Seq<u64>, listed: int, k: int) -> Place {
    let j = choose|j: int| 0 <= j < order.len() && order[j] == k;
    let m = if order.len() < POOL {
        order.len() as int
    } else {
        POOL as int
    };
    if j < m {
        Place::Candidate(c, j)
    } else {
        Place::Listed(c, listed + j - m)
    }
}

proof fn lemma_dealt(h: HeapView, o: Owner, c: int, slab: int, order: Seq<u64>) -> (g: Owner)
    requires
        owners_of(h, o),
        h.base != 0,
        h.rng is Some,
        0 <= c < N_POOLED,
        h.pools[c].len() == 0,
        heap::is_order(order, heap::slots(c)),
        h.base <= slab,
        slab + SLAB <= h.end(),
        slab % 16 == 0,
        forall|u: int| slab <= u < slab + SLAB ==> #[trigger] o(u) is None,
        forall|i: int, u: int|
            0 <= i < h.slabs.len() && !#[trigger] h.slabs[i] && slab <= u < slab + SLAB
                ==> !#[trigger] in_slab(h, i, u),
    ensures
        owners_of(h.dealt(c, slab, order), g),
{
    heap::lemma_bounds(h);
    heap::lemma_dealt(h, c, slab, order);
    heap::lemma_slots(c);
    let b = h.dealt(c, slab, order);
    let size = heap::class_size(c);
    let n = heap::slots(c);
    let listed = h.lists[c].len() as int;
    let g: Owner = |u: int|
        if slab <= u < slab + n * size {
            let k = (u - slab) / size;
            Some((slab + k * size, size, dealt_to(c, order, listed, k)))
        } else {
            o(u)
        };
    assert(n * size <= SLAB) by (nonlinear_arith)
        requires
            n == 0x1_0000int / size,
            16 <= size,
            SLAB == 0x1_0000,
    ;
    assert forall|a: int, t: int, place: Place| owned(h, o, a, t, place) implies #[trigger] owned(
        b,
        g,
        a,
        t,
        place,
    ) by {
        assert forall|u: int| a <= u < a + b.span(t) implies #[trigger] g(u) == Some(
            (a, t, place),
        ) by {
            assert(o(u) == Some((a, t, place)));
        }
    }
    assert forall|i: int, u: int|
        0 <= i < b.slabs.len() && !#[trigger] b.slabs[i] && in_slab(b, i, u) implies #[trigger] g(u)
        is None by {
        assert(!h.slabs[i]);
        assert(in_slab(h, i, u));
        assert(o(u) is None);
    }
    let pool = b.pools[c];
    let list = b.lists[c];
    let m = if order.len() < POOL {
        order.len() as int
    } else {
        POOL as int
    };
    assert forall|i: int| #![trigger pool[i]] 0 <= i < pool.len() implies owned(
        b,
        g,
        pool[i] as int,
        size,
        Place::Candidate(c, i),
    ) by {
        heap::lemma_slot(h, slab, order[i] as int, c);
        lemma_dealt_slot(b, o, g, c, slab, order, listed, i);
    }
    assert forall|i: int| #![trigger list[i]] 0 <= i < list.len() implies owned(
        b,
        g,
        list[i] as int,
        size,
        Place::Listed(c, i),
    ) by {
        if i < listed {
            assert(list[i] == h.lists[c][i]);
            assert(owned(h, o, h.lists[c][i] as int, size, Place::Listed(c, i)));
        } else {
            let j = m + i - listed;
            heap::lemma_slot(h, slab, order[j] as int, c);
            lemma_dealt_slot(b, o, g, c, slab, order, listed, j);
        }
    }
    lemma_class_carried(h, b, o, g, c, pool, list);
    g
}

proof fn lemma_dealt_slot(
    b: HeapView,
    o: Owner,
    g: Owner,
    c: int,
    slab: int,
    order: Seq<u64>,
    listed: int,
    j: int,
)
    requires
        0 <= c < N_POOLED,
        heap::is_order(order, heap::slots(c)),
        0 <= j < order.len(),
        g == (|u: int|
            if slab <= u < slab + heap::slots(c) * heap::class_size(c) {
                let k = (u - slab) / heap::class_size(c);
                Some(
                    (
                        slab + k * heap::class_size(c),
                        heap::class_size(c),
                        dealt_to(c, order, listed, k),
                    ),
                )
            } else {
                o(u)
            }),
    ensures
        ({
            let m = if order.len() < POOL {
                order.len() as int
            } else {
                POOL as int
            };
            owned(
                b,
                g,
                slab + order[j] * heap::class_size(c),
                heap::class_size(c),
                if j < m {
                    Place::Candidate(c, j)
                } else {
                    Place::Listed(c, listed + j - m)
                },
            )
        }),
{
    let size = heap::class_size(c);
    let n = heap::slots(c);
    let k = order[j] as int;
    let found = choose|x: int| 0 <= x < order.len() && order[x] == k;
    assert(0 <= found < order.len() && order[found] == k);
    assert(found == j) by {
        if found < j {
            assert(order[found] != order[j]);
        } else if j < found {
            assert(order[j] != order[found]);
        }
    }
    let m = if order.len() < POOL {
        order.len() as int
    } else {
        POOL as int
    };
    let place = if j < m {
        Place::Candidate(c, j)
    } else {
        Place::Listed(c, listed + j - m)
    };
    assert forall|u: int|
        slab + k * size <= u < slab + k * size + b.span(size) implies #[trigger] g(u) == Some(
        (slab + k * size, size, place),
    ) by {
        let d = u - slab;
        assert(d / size == k) by (nonlinear_arith)
            requires
                k * size <= d < k * size + size,
                16 <= size,
        ;
        assert(0 <= k * size && k * size + size <= n * size) by (nonlinear_arith)
            requires
                0 <= k < n,
                16 <= size,
        ;
    }
}

proof fn lemma_refilled(h: HeapView, o: Owner, c: int) -> (g: Owner)
    requires
        owners_of(h, o),
        h.base != 0,
        h.rng is Some,
        0 <= c < N_POOLED,
        h.pools[c].len() == 0,
    ensures
        owners_of(h.refilled(c).0, g),
{
    heap::lemma_bounds(h);
    if h.lists[c].len() > 0 {
        lemma_topped_up(h, o, c)
    } else {
        heap::lemma_slabs_taken(h, 1, true);
        heap::lemma_part(h, true);
        lemma_taken(h, o, 1, true);
        let (mid, got) = h.slabs_taken(1, true);
        if got is None {
            o
        } else {
            let slab = got->0;
            let n = heap::slots(c);
            heap::lemma_slots(c);
            assert(heap::is_order(heap::in_sequence(n as nat), n));
            heap::lemma_shuffled(heap::in_sequence(n as nat), mid.rng->0, (n - 1) as nat, n);
            let (order, s) = heap::shuffled(
                heap::in_sequence(n as nat),
                mid.rng->0,
                (n - 1) as nat,
            );
            let ready = HeapView { rng: Some(s), ..mid };
            heap::lemma_same_blocks(mid, ready);
            lemma_renumbered(mid, ready, o);
            lemma_marked(h, mid, slab, 1);
            lemma_dealt(ready, o, c, slab, order)
        }
    }
}

/// The stream moved on.
proof fn lemma_renumbered(h: HeapView, b: HeapView, o: Owner)
    requires
        owners_of(h, o),
        h.rng is Some,
        b.rng is Some,
        b.wf(),
        b == (HeapView { rng: b.rng, ..h }),
    ensures
        owners_of(b, o),
{
    assert(rest_is_free(b, o)) by {
        assert forall|i: int, u: int|
            0 <= i < b.slabs.len() && !#[trigger] b.slabs[i] && in_slab(b, i, u) implies #[trigger] o(
            u,
        ) is None by {
            assert(in_slab(h, i, u));
        }
    }
    lemma_same_books(h, b, o);
}

/// No slab that is not taken reaches into those that were just taken.
proof fn lemma_marked(h: HeapView, b: HeapView, a: int, n: int)
    requires
        b.base == h.base,
        b.slabs.len() == h.slabs.len(),
        0 <= n,
        ({
            let at = (a - h.base) / (SLAB as int);
            a == h.base + at * SLAB && 0 <= at && at + n <= h.slabs.len() && b.slabs
                == heap::marked(h.slabs, at, n, true)
        }),
    ensures
        forall|i: int, u: int|
            0 <= i < b.slabs.len() && !#[trigger] b.slabs[i] && a <= u < a + n * SLAB
                ==> !#[trigger] in_slab(b, i, u),
{
    let at = (a - h.base) / (SLAB as int);
    assert forall|i: int, u: int|
        0 <= i < b.slabs.len() && !#[trigger] b.slabs[i] && a <= u < a + n * SLAB
            implies !#[trigger] in_slab(b, i, u) by {
        assert(!(at <= i < at + n));
    }
}

/// A run of slabs for one block
proof fn lemma_run(h: HeapView, o: Owner, size: int) -> (g: Owner)
    requires
        owners_of(h, o),
        h.base != 0,
        h.rng is Some,
        size > SLAB,
    ensures
        ({
            let (b, got) = h.slabs_taken(heap::up(size, SLAB as int) / (SLAB as int), false);
            &&& owners_of(b, g)
            &&& got matches Some(a) ==> owned(b, g, a, size, Place::Out)
        }),
{
    let n = heap::up(size, SLAB as int) / (SLAB as int);
    assert(n * SLAB == heap::up(size, SLAB as int));
    heap::lemma_slabs_taken(h, n, false);
    heap::lemma_part(h, false);
    lemma_taken(h, o, n, false);
    let (b, got) = h.slabs_taken(n, false);
    if got is None {
        o
    } else {
        let a = got->0;
        lemma_marked(h, b, a, n);
        lemma_given(b, o, a, n * SLAB, size);
        let g = given(o, a, n * SLAB, size, Place::Out);
        assert(owned(b, g, a, size, Place::Out));
        g
    }
}

/// A block of a compact layout
proof fn lemma_compact(h: HeapView, o: Owner, class: Option<int>, size: int) -> (g: Owner)
    requires
        owners_of(h, o),
        h.base != 0,
        h.rng is None,
        class matches Some(c) ==> 0 <= c < CLASSES && size == heap::class_size(c),
        0 < size,
        size % 16 == 0,
    ensures
        ({
            let (b, got) = h.compact(class, size);
            &&& owners_of(b, g)
            &&& got matches Some(a) ==> owned(b, g, a, size, Place::Out)
        }),
{
    heap::lemma_bounds(h);
    let (b, got) = h.compact(class, size);
    if class is Some && h.lists[class->0].len() > 0 {
        lemma_unlisted(h, o, class->0)
    } else if class is None && heap::huge_below(h.huge, size, h.huge.len() as int) is Some {
        let i = heap::huge_below(h.huge, size, h.huge.len() as int)->0;
        heap::lemma_huge_below(h.huge, size, h.huge.len() as int);
        lemma_less_huge(h, o, i)
    } else if h.bump + size > h.end() {
        o
    } else {
        heap::lemma_bumped(h, size);
        lemma_carried(h, b, o, o);
        lemma_given(b, o, h.bump as int, size, size);
        let g = given(o, h.bump as int, size, size, Place::Out);
        assert(owned(b, g, h.bump as int, size, Place::Out));
        g
    }
}

/// The last free block of a class leaves its list.
proof fn lemma_unlisted(h: HeapView, o: Owner, c: int) -> (g: Owner)
    requires
        owners_of(h, o),
        h.base != 0,
        0 <= c < CLASSES,
        h.lists[c].len() > 0,
    ensures
        ({
            let b = h.with_class(c, h.pools[c], h.lists[c].drop_last());
            &&& owners_of(b, g)
            &&& owned(b, g, h.lists[c].last() as int, heap::class_size(c), Place::Out)
        }),
{
    heap::lemma_bounds(h);
    heap::lemma_entries(h, c);
    let list = h.lists[c];
    let len = list.len() as int;
    let left = list.drop_last();
    let pool = h.pools[c];
    let b = h.with_class(c, pool, left);
    assert forall|k: int| 0 <= k < left.len() implies h.fits(
        #[trigger] left[k] as int,
        heap::class_size(c),
    ) by {
        assert(left[k] == h.lists[c][k]);
    }
    heap::lemma_with_class(h, c, pool, left);
    let f = |place: Place, a: int|
        match place {
            Place::Listed(k, i) => if k == c && i == len - 1 {
                Place::Out
            } else {
                place
            },
            _ => place,
        };
    let g = renamed(o, f);
    lemma_renamed_rest(h, b, o, f);
    lemma_renamed_others(h, b, o, f, c);
    assert forall|i: int| #![trigger pool[i]] 0 <= i < pool.len() implies owned(
        b,
        g,
        pool[i] as int,
        heap::class_size(c),
        Place::Candidate(c, i),
    ) by {
        assert(pool[i] == h.pools[c][i]);
        lemma_renamed(
            h,
            b,
            o,
            f,
            h.pools[c][i] as int,
            heap::class_size(c),
            Place::Candidate(c, i),
        );
    }
    assert forall|i: int| #![trigger left[i]] 0 <= i < left.len() implies owned(
        b,
        g,
        left[i] as int,
        heap::class_size(c),
        Place::Listed(c, i),
    ) by {
        assert(left[i] == h.lists[c][i]);
        lemma_renamed(h, b, o, f, h.lists[c][i] as int, heap::class_size(c), Place::Listed(c, i));
    }
    lemma_renamed(
        h,
        b,
        o,
        f,
        h.lists[c][len - 1] as int,
        heap::class_size(c),
        Place::Listed(c, len - 1),
    );
    lemma_class_carried(h, b, o, g, c, pool, left);
    g
}

/// A free block of whole pages leaves its list.
proof fn lemma_less_huge(h: HeapView, o: Owner, i: int) -> (g: Owner)
    requires
        owners_of(h, o),
        h.base != 0,
        0 <= i < h.huge.len(),
    ensures
        ({
            let b = HeapView { huge: h.huge.remove(i), ..h };
            &&& owners_of(b, g)
            &&& owned(b, g, h.huge[i].0 as int, h.huge[i].1 as int, Place::Out)
        }),
{
    heap::lemma_less_huge(h, i);
    let b = HeapView { huge: h.huge.remove(i), ..h };
    let f = |place: Place, a: int|
        match place {
            Place::Huge(k) => if k == i {
                Place::Out
            } else if k > i {
                Place::Huge(k - 1)
            } else {
                place
            },
            _ => place,
        };
    let g = renamed(o, f);
    lemma_renamed_rest(h, b, o, f);
    assert forall|k: int| #![trigger b.huge[k]] 0 <= k < b.huge.len() implies owned(
        b,
        g,
        b.huge[k].0 as int,
        b.huge[k].1 as int,
        Place::Huge(k),
    ) by {
        let j = if k < i {
            k
        } else {
            k + 1
        };
        assert(b.huge[k] == h.huge[j]);
        lemma_renamed(
            h,
            b,
            o,
            f,
            h.huge[j].0 as int,
            h.huge[j].1 as int,
            Place::Huge(j),
        );
    }
    lemma_renamed(h, b, o, f, h.huge[i].0 as int, h.huge[i].1 as int, Place::Huge(i));
    lemma_huge_carried(h, b, o, f);
    g
}

/// The free blocks of whole pages changed.
proof fn lemma_huge_carried(h: HeapView, b: HeapView, o: Owner, f: spec_fn(Place, int) -> Place)
    requires
        owners_of(h, o),
        b.wf(),
        b == (HeapView { huge: b.huge, ..h }),
        forall|place: Place, a: int|
            !(place is Huge) && !(place is Out) ==> #[trigger] f(place, a) == place,
        forall|i: int|
            #![trigger b.huge[i]]
            0 <= i < b.huge.len() ==> owned(
                b,
                renamed(o, f),
                b.huge[i].0 as int,
                b.huge[i].1 as int,
                Place::Huge(i),
            ),
        rest_is_free(b, renamed(o, f)),
    ensures
        owners_of(b, renamed(o, f)),
{
    let g = renamed(o, f);
    assert forall|c: int, i: int|
        #![trigger b.lists[c][i]]
        0 <= c < CLASSES && 0 <= i < b.lists[c].len() implies owned(
        b,
        g,
        b.lists[c][i] as int,
        heap::class_size(c),
        Place::Listed(c, i),
    ) by {
        let place = Place::Listed(c, i);
        lemma_renamed(h, b, o, f, h.lists[c][i] as int, heap::class_size(c), place);
        assert(f(place, h.lists[c][i] as int) == place);
    }
    assert forall|c: int, i: int|
        #![trigger b.pools[c][i]]
        0 <= c < CLASSES && 0 <= i < b.pools[c].len() implies owned(
        b,
        g,
        b.pools[c][i] as int,
        heap::class_size(c),
        Place::Candidate(c, i),
    ) by {
        let place = Place::Candidate(c, i);
        lemma_renamed(h, b, o, f, h.pools[c][i] as int, heap::class_size(c), place);
        assert(f(place, h.pools[c][i] as int) == place);
    }
    assert forall|p: u64| #![trigger b.blocks[p]] b.blocks.dom().contains(p) implies owned(
        b,
        g,
        b.blocks[p].0 as int,
        b.blocks[p].1 as int,
        Place::Used(p),
    ) by {
        let place = Place::Used(p);
        lemma_renamed(h, b, o, f, h.blocks[p].0 as int, h.blocks[p].1 as int, place);
        assert(f(place, h.blocks[p].0 as int) == place);
    }
}

/// A raw block belongs to nobody else.
proof fn lemma_raw_block(h: HeapView, o: Owner, n: int) -> (g: Owner)
    requires
        owners_of(h, o),
        h.base != 0,
        0 <= n <= u64::MAX,
    ensures
        ({
            let (b, got) = h.raw_block(n);
            &&& owners_of(b, g)
            &&& got matches Some((a, size)) ==> owned(b, g, a, size, Place::Out)
        }),
{
    heap::lemma_class_of(n);
    match heap::class_of(n) {
        None => o,
        Some((class, size)) => {
            if h.rng is None {
                lemma_compact(h, o, class, size)
            } else if class is Some && class->0 < N_POOLED {
                let c = class->0;
                if h.pools[c].len() > 0 {
                    lemma_picked(h, o, c)
                } else {
                    heap::lemma_refilled(h, c);
                    let mid = lemma_refilled(h, o, c);
                    if h.refilled(c).1 {
                        lemma_picked(h.refilled(c).0, mid, c)
                    } else {
                        mid
                    }
                }
            } else {
                lemma_run(h, o, size)
            }
        },
    }
}

/// The blocks in use changed.
proof fn lemma_blocks_carried(h: HeapView, b: HeapView, o: Owner, f: spec_fn(Place, int) -> Place)
    requires
        owners_of(h, o),
        b.wf(),
        b == (HeapView { blocks: b.blocks, ..h }),
        forall|place: Place, a: int|
            !(place is Used) && !(place is Out) ==> #[trigger] f(place, a) == place,
        forall|p: u64|
            #![trigger b.blocks[p]]
            b.blocks.dom().contains(p) ==> owned(
                b,
                renamed(o, f),
                b.blocks[p].0 as int,
                b.blocks[p].1 as int,
                Place::Used(p),
            ),
    ensures
        owners_of(b, renamed(o, f)),
{
    let g = renamed(o, f);
    lemma_renamed_rest(h, b, o, f);
    assert forall|c: int, i: int|
        #![trigger b.lists[c][i]]
        0 <= c < CLASSES && 0 <= i < b.lists[c].len() implies owned(
        b,
        g,
        b.lists[c][i] as int,
        heap::class_size(c),
        Place::Listed(c, i),
    ) by {
        let place = Place::Listed(c, i);
        lemma_renamed(h, b, o, f, h.lists[c][i] as int, heap::class_size(c), place);
        assert(f(place, h.lists[c][i] as int) == place);
    }
    assert forall|c: int, i: int|
        #![trigger b.pools[c][i]]
        0 <= c < CLASSES && 0 <= i < b.pools[c].len() implies owned(
        b,
        g,
        b.pools[c][i] as int,
        heap::class_size(c),
        Place::Candidate(c, i),
    ) by {
        let place = Place::Candidate(c, i);
        lemma_renamed(h, b, o, f, h.pools[c][i] as int, heap::class_size(c), place);
        assert(f(place, h.pools[c][i] as int) == place);
    }
    assert forall|i: int| #![trigger b.huge[i]] 0 <= i < b.huge.len() implies owned(
        b,
        g,
        b.huge[i].0 as int,
        b.huge[i].1 as int,
        Place::Huge(i),
    ) by {
        let place = Place::Huge(i);
        lemma_renamed(h, b, o, f, h.huge[i].0 as int, h.huge[i].1 as int, place);
        assert(f(place, h.huge[i].0 as int) == place);
    }
}

/// A block of nobody's is put to use.
proof fn lemma_used(h: HeapView, o: Owner, p: u64, raw: u64, size: u64) -> (g: Owner)
    requires
        owners_of(h, o),
        h.base != 0,
        owned(h, o, raw as int, size as int, Place::Out),
        h.fits(raw as int, size as int),
        heap::class_of(size as int) matches Some((_, own)) && own == size,
        raw + HEADER <= p < raw + size,
    ensures
        owners_of((HeapView { blocks: h.blocks.insert(p, (raw, size)), ..h }), g),
        !h.blocks.dom().contains(p),
{
    let b = HeapView { blocks: h.blocks.insert(p, (raw, size)), ..h };
    heap::lemma_block_added(h, p, raw, size);
    heap::lemma_span(h, size as int);
    if h.blocks.dom().contains(p) {
        let (other, t) = h.blocks[p];
        reveal(HeapView::wf);
        assert(h.holds(p));
        heap::lemma_span(h, t as int);
        lemma_one_owner(
            h,
            o,
            p as int,
            raw as int,
            size as int,
            Place::Out,
            other as int,
            t as int,
            Place::Used(p),
        );
    }
    let f = |place: Place, a: int|
        if place is Out && a == raw {
            Place::Used(p)
        } else {
            place
        };
    let g = renamed(o, f);
    assert forall|q: u64| #![trigger b.blocks[q]] b.blocks.dom().contains(q) implies owned(
        b,
        g,
        b.blocks[q].0 as int,
        b.blocks[q].1 as int,
        Place::Used(q),
    ) by {
        if q == p {
            lemma_renamed(h, b, o, f, raw as int, size as int, Place::Out);
        } else {
            lemma_renamed(
                h,
                b,
                o,
                f,
                h.blocks[q].0 as int,
                h.blocks[q].1 as int,
                Place::Used(q),
            );
        }
    }
    lemma_blocks_carried(h, b, o, f);
    g
}

/// A block is out of use.
proof fn lemma_unused(h: HeapView, o: Owner, p: u64) -> (g: Owner)
    requires
        owners_of(h, o),
        h.blocks.dom().contains(p),
    ensures
        ({
            let b = HeapView { blocks: h.blocks.remove(p), ..h };
            &&& owners_of(b, g)
            &&& owned(b, g, h.blocks[p].0 as int, h.blocks[p].1 as int, Place::Out)
        }),
{
    heap::lemma_block_removed(h, p);
    let b = HeapView { blocks: h.blocks.remove(p), ..h };
    let f = |place: Place, a: int|
        if place == Place::Used(p) {
            Place::Out
        } else {
            place
        };
    let g = renamed(o, f);
    assert forall|q: u64| #![trigger b.blocks[q]] b.blocks.dom().contains(q) implies owned(
        b,
        g,
        b.blocks[q].0 as int,
        b.blocks[q].1 as int,
        Place::Used(q),
    ) by {
        lemma_renamed(
            h,
            b,
            o,
            f,
            h.blocks[q].0 as int,
            h.blocks[q].1 as int,
            Place::Used(q),
        );
    }
    lemma_renamed(h, b, o, f, h.blocks[p].0 as int, h.blocks[p].1 as int, Place::Used(p));
    lemma_blocks_carried(h, b, o, f);
    g
}

/// A block goes to the end of a class's candidates or free blocks.
proof fn lemma_returned(h: HeapView, o: Owner, c: int, raw: u64, pooled: bool) -> (g: Owner)
    requires
        owners_of(h, o),
        h.base != 0,
        0 <= c < CLASSES,
        owned(h, o, raw as int, heap::class_size(c), Place::Out),
        h.fits(raw as int, heap::class_size(c)),
        pooled ==> h.pools[c].len() < POOL,
    ensures
        owners_of(
            if pooled {
                h.with_class(c, h.pools[c].push(raw), h.lists[c])
            } else {
                h.with_class(c, h.pools[c], h.lists[c].push(raw))
            },
            g,
        ),
{
    heap::lemma_bounds(h);
    heap::lemma_entries(h, c);
    let size = heap::class_size(c);
    let pool = if pooled {
        h.pools[c].push(raw)
    } else {
        h.pools[c]
    };
    let list = if pooled {
        h.lists[c]
    } else {
        h.lists[c].push(raw)
    };
    let b = h.with_class(c, pool, list);
    let there = if pooled {
        Place::Candidate(c, h.pools[c].len() as int)
    } else {
        Place::Listed(c, h.lists[c].len() as int)
    };
    assert forall|k: int| 0 <= k < pool.len() implies h.fits(#[trigger] pool[k] as int, size) by {
        if k < h.pools[c].len() {
            assert(pool[k] == h.pools[c][k]);
        }
    }
    assert forall|k: int| 0 <= k < list.len() implies h.fits(#[trigger] list[k] as int, size) by {
        if k < h.lists[c].len() {
            assert(list[k] == h.lists[c][k]);
        }
    }
    heap::lemma_with_class(h, c, pool, list);
    let f = |place: Place, a: int|
        if place is Out && a == raw {
            there
        } else {
            place
        };
    let g = renamed(o, f);
    lemma_renamed_rest(h, b, o, f);
    lemma_renamed_others(h, b, o, f, c);
    lemma_renamed(h, b, o, f, raw as int, size, Place::Out);
    assert forall|i: int| #![trigger pool[i]] 0 <= i < pool.len() implies owned(
        b,
        g,
        pool[i] as int,
        size,
        Place::Candidate(c, i),
    ) by {
        if i < h.pools[c].len() {
            assert(pool[i] == h.pools[c][i]);
            lemma_renamed(h, b, o, f, h.pools[c][i] as int, size, Place::Candidate(c, i));
        }
    }
    assert forall|i: int| #![trigger list[i]] 0 <= i < list.len() implies owned(
        b,
        g,
        list[i] as int,
        size,
        Place::Listed(c, i),
    ) by {
        if i < h.lists[c].len() {
            assert(list[i] == h.lists[c][i]);
            lemma_renamed(h, b, o, f, h.lists[c][i] as int, size, Place::Listed(c, i));
        }
    }
    lemma_class_carried(h, b, o, g, c, pool, list);
    g
}

/// A block of whole pages goes to the end of the free ones.
proof fn lemma_more_huge(h: HeapView, o: Owner, raw: u64, size: u64) -> (g: Owner)
    requires
        owners_of(h, o),
        h.base != 0,
        owned(h, o, raw as int, size as int, Place::Out),
        (HeapView { huge: h.huge.push((raw, size)), ..h }).wf(),
    ensures
        owners_of((HeapView { huge: h.huge.push((raw, size)), ..h }), g),
{
    let b = HeapView { huge: h.huge.push((raw, size)), ..h };
    let n = h.huge.len() as int;
    let f = |place: Place, a: int|
        if place is Out && a == raw {
            Place::Huge(n)
        } else {
            place
        };
    let g = renamed(o, f);
    lemma_renamed_rest(h, b, o, f);
    lemma_renamed(h, b, o, f, raw as int, size as int, Place::Out);
    assert forall|k: int| #![trigger b.huge[k]] 0 <= k < b.huge.len() implies owned(
        b,
        g,
        b.huge[k].0 as int,
        b.huge[k].1 as int,
        Place::Huge(k),
    ) by {
        if k < n {
            assert(b.huge[k] == h.huge[k]);
            lemma_renamed(
                h,
                b,
                o,
                f,
                h.huge[k].0 as int,
                h.huge[k].1 as int,
                Place::Huge(k),
            );
        }
    }
    lemma_huge_carried(h, b, o, f);
    g
}

/// The slabs of a run are nobody's again.
proof fn lemma_run_freed(h: HeapView, o: Owner, raw: int, size: int) -> (g: Owner)
    requires
        owners_of(h, o),
        h.base != 0,
        h.rng is Some,
        size > SLAB,
        owned(h, o, raw, size, Place::Out),
        h.fits(raw, size),
        ({
            let n = heap::up(size, SLAB as int) / (SLAB as int);
            let at = (raw - h.base) / (SLAB as int);
            (HeapView { slabs: heap::marked(h.slabs, at, n, false), ..h }).wf()
        }),
    ensures
        ({
            let n = heap::up(size, SLAB as int) / (SLAB as int);
            let at = (raw - h.base) / (SLAB as int);
            owners_of((HeapView { slabs: heap::marked(h.slabs, at, n, false), ..h }), g)
        }),
{
    let n = heap::up(size, SLAB as int) / (SLAB as int);
    let at = (raw - h.base) / (SLAB as int);
    let b = HeapView { slabs: heap::marked(h.slabs, at, n, false), ..h };
    let span = h.span(size);
    assert(span == n * SLAB);
    assert(raw == h.base + at * SLAB);
    let g: Owner = |u: int|
        if raw <= u < raw + span {
            None
        } else {
            o(u)
        };
    assert forall|a: int, t: int, place: Place|
        owned(h, o, a, t, place) && !(place is Out) implies #[trigger] owned(b, g, a, t, place) by {
        assert forall|u: int| a <= u < a + b.span(t) implies #[trigger] g(u) == Some(
            (a, t, place),
        ) by {
            assert(o(u) == Some((a, t, place)));
        }
    }
    assert(rest_is_free(b, g)) by {
        assert forall|i: int, u: int|
            0 <= i < b.slabs.len() && !#[trigger] b.slabs[i] && in_slab(b, i, u) implies #[trigger] g(
            u,
        ) is None by {
            if !(at <= i < at + n) {
                assert(!h.slabs[i]);
                assert(in_slab(h, i, u));
                assert(o(u) is None);
            }
        }
    }
    lemma_kept_but_out(h, b, o, g);
    g
}

/// Only what was between the books changed.
proof fn lemma_kept_but_out(h: HeapView, b: HeapView, o: Owner, g: Owner)
    requires
        owners_of(h, o),
        b.wf(),
        b.lists == h.lists,
        b.pools == h.pools,
        b.huge == h.huge,
        b.blocks == h.blocks,
        forall|a: int, size: int, place: Place|
            owned(h, o, a, size, place) && !(place is Out) ==> #[trigger] owned(
                b,
                g,
                a,
                size,
                place,
            ),
        rest_is_free(b, g),
    ensures
        owners_of(b, g),
{
    assert forall|c: int, i: int|
        #![trigger b.lists[c][i]]
        0 <= c < CLASSES && 0 <= i < b.lists[c].len() implies owned(
        b,
        g,
        b.lists[c][i] as int,
        heap::class_size(c),
        Place::Listed(c, i),
    ) by {
        assert(owned(h, o, h.lists[c][i] as int, heap::class_size(c), Place::Listed(c, i)));
    }
    assert forall|c: int, i: int|
        #![trigger b.pools[c][i]]
        0 <= c < CLASSES && 0 <= i < b.pools[c].len() implies owned(
        b,
        g,
        b.pools[c][i] as int,
        heap::class_size(c),
        Place::Candidate(c, i),
    ) by {
        assert(owned(h, o, h.pools[c][i] as int, heap::class_size(c), Place::Candidate(c, i)));
    }
    assert forall|i: int| #![trigger b.huge[i]] 0 <= i < b.huge.len() implies owned(
        b,
        g,
        b.huge[i].0 as int,
        b.huge[i].1 as int,
        Place::Huge(i),
    ) by {
        assert(owned(h, o, h.huge[i].0 as int, h.huge[i].1 as int, Place::Huge(i)));
    }
    assert forall|p: u64| #![trigger b.blocks[p]] b.blocks.dom().contains(p) implies owned(
        b,
        g,
        b.blocks[p].0 as int,
        b.blocks[p].1 as int,
        Place::Used(p),
    ) by {
        assert(owned(h, o, h.blocks[p].0 as int, h.blocks[p].1 as int, Place::Used(p)));
    }
}

proof fn lemma_raw_freed(h: HeapView, o: Owner, raw: u64, size: u64) -> (g: Owner)
    requires
        owners_of(h, o),
        h.base != 0,
        owned(h, o, raw as int, size as int, Place::Out),
        h.fits(raw as int, size as int),
        heap::class_of(size as int) matches Some((_, own)) && own == size,
    ensures
        owners_of(h.raw_freed(raw as int, size as int), g),
{
    heap::lemma_class_of(size as int);
    heap::lemma_raw_freed(h, raw as int, size as int);
    let (class, _) = heap::class_of(size as int)->0;
    if class is Some && (h.rng is None || class->0 < N_POOLED) {
        let c = class->0;
        lemma_returned(h, o, c, raw, h.rng is Some && h.pools[c].len() < POOL)
    } else if h.rng is None {
        lemma_more_huge(h, o, raw, size)
    } else {
        lemma_run_freed(h, o, raw as int, size as int)
    }
}

/// A request keeps a heap sound, and what it gets is aligned, large enough,
/// in the region and nobody else's.
pub proof fn an_allocation_is_sound(h: HeapView, size: u64, align: u64)
    requires
        sound(h),
        align >= 16,
    ensures
        ({
            let (after, got) = h.allocated(size as int, align as int);
            &&& h.base != 0 ==> sound(after)
            &&& got matches Some(p) ==> {
                &&& p % align == 0
                &&& !h.blocks.dom().contains(p)
                &&& after.blocks.dom() == h.blocks.dom().insert(p)
                &&& h.base <= p
                &&& p + size <= h.end()
                &&& size <= after.usable(p)
            }
        }),
{
    let o = choose|o: Owner| owners_of(h, o);
    let wanted = HeapView::wanted(size as int, align as int);
    if h.base != 0 && wanted <= u64::MAX {
        heap::lemma_bounds(h);
        heap::lemma_raw_block(h, wanted);
        heap::lemma_class_of(wanted);
        let mid = lemma_raw_block(h, o, wanted);
        let (b, got) = h.raw_block(wanted);
        if got is Some {
            let (raw, t) = got->0;
            let asked = if size < 1 {
                1
            } else {
                size as int
            };
            heap::lemma_payload(raw, t, asked, align as int);
            heap::lemma_span(h, t);
            assert(b.fits(raw, t));
            let p = heap::up(raw + HEADER, align as int) as u64;
            let g = lemma_used(b, mid, p, raw as u64, t as u64);
            let after = h.allocated(size as int, align as int).0;
            assert(owners_of(after, g));
            assert(after.blocks.dom() =~= h.blocks.dom().insert(p));
        } else {
            assert(owners_of(h.allocated(size as int, align as int).0, mid));
        }
    } else {
        assert(owners_of(h, o));
    }
}

/// Freeing keeps a heap sound.
pub proof fn a_free_is_sound(h: HeapView, p: u64)
    requires
        sound(h),
        h.blocks.dom().contains(p),
    ensures
        sound(h.freed(p)),
        h.freed(p).blocks == h.blocks.remove(p),
{
    let o = choose|o: Owner| owners_of(h, o);
    heap::lemma_block_removed(h, p);
    let (raw, size) = h.blocks[p];
    let mid = lemma_unused(h, o, p);
    let b = HeapView { blocks: h.blocks.remove(p), ..h };
    assert(b.fits(raw as int, size as int));
    heap::lemma_raw_freed(b, raw as int, size as int);
    let g = lemma_raw_freed(b, mid, raw, size);
    assert(owners_of(h.freed(p), g));
}

/// A run of slabs that is freed is free again: the slabs are as they were
/// before the request.
pub proof fn a_freed_run_is_free_again(h: HeapView, size: u64, align: u64)
    requires
        sound(h),
        h.base != 0,
        h.rng is Some,
        align >= 16,
        size > SLAB,
        h.allocated(size as int, align as int).1 is Some,
    ensures
        ({
            let (after, got) = h.allocated(size as int, align as int);
            after.freed(got->0).slabs == h.slabs
        }),
{
    let wanted = HeapView::wanted(size as int, align as int);
    let (after, got) = h.allocated(size as int, align as int);
    heap::lemma_class_of(wanted);
    let (class, t) = heap::class_of(wanted)->0;
    let n = heap::up(t, SLAB as int) / (SLAB as int);
    heap::lemma_slabs_taken(h, n, false);
    heap::lemma_part(h, false);
    assert(after.freed(got->0).slabs =~= h.slabs);
}

/// Small blocks leave room for big ones: the slabs of the pooled classes are
/// in the window, and those of runs are not.
pub proof fn small_blocks_leave_room(h: HeapView, n: int, pooled: bool, i: int)
    requires
        h.wf(),
        h.base != 0,
        h.rng is Some,
        h.window.0 == 0 || h.window.0 + h.window.1 == h.slab_count(),
        1 <= n,
        0 <= i < h.slabs.len(),
        h.slabs_taken(n, pooled).0.slabs[i] != h.slabs[i],
    ensures
        pooled == (h.window.0 <= i < h.window.0 + h.window.1),
{
    heap::lemma_slabs_taken(h, n, pooled);
    heap::lemma_part(h, pooled);
    if h.part_for(pooled).1 >= n {
        let (first, len) = h.part_for(pooled);
        let last = len - n;
        let s = h.rng->0;
        heap::lemma_try_from(h.slabs, s, first, last, n, 0);
        heap::lemma_drawn_at(s, first, last, 16);
        heap::lemma_fit_from(
            h.slabs,
            first,
            last,
            n,
            heap::drawn_at(s, first, last, 16) - first,
            0,
        );
    }
}

/// What a program asks of its heap
pub enum Call {
    Allocate(u64, u64),
    Free(u64),
}

/// The heap after the first `n` calls, and the addresses that were given
pub open spec fn after_calls(h: HeapView, calls: Seq<Call>, n: int) -> (HeapView, Seq<Option<u64>>)
    decreases n,
{
    if n <= 0 {
        (h, Seq::empty())
    } else {
        let (before, given) = after_calls(h, calls, n - 1);
        match calls[n - 1] {
            Call::Allocate(size, align) => {
                let (after, got) = before.allocated(size as int, align as int);
                (after, given.push(got))
            },
            Call::Free(p) => (before.freed(p), given),
        }
    }
}

/// A seed fixes the layout: the same calls on a heap of the same seed, size
/// and place give the same addresses.
pub proof fn a_seed_fixes_the_layout(
    a: HeapView,
    b: HeapView,
    size: u64,
    seed: u64,
    base: u64,
    calls: Seq<Call>,
    n: int,
)
    requires
        a == (HeapView { rng: Some(crate::rng::expanded(seed)), ..HeapView::blank(size) }),
        b == (HeapView { rng: Some(crate::rng::expanded(seed)), ..HeapView::blank(size) }),
    ensures
        after_calls(a.mapped(base), calls, n) == after_calls(b.mapped(base), calls, n),
{
}

} // verus!
