use derp::errno::Errno;
use derp::heap::calls::{Release, Resized};
use derp::heap::{good_size, is_alignment, stays, Heap, PAGE, REGION_SIZE, SLAB};

/// A seeded heap of its own
fn heap(seed: u64, hint: u64) -> Heap {
    let mut h = Heap::new(REGION_SIZE);
    h.seed_layout(seed);
    h.map(hint);
    h
}

const SIZES: [u64; 9] = [1, 40, 64, 900, 1024, 5000, 60_000, 300_000, 3 << 20];

fn addresses(seed: u64, hint: u64) -> Vec<u64> {
    let mut h = heap(seed, hint);
    let mut out = Vec::new();
    for round in 0..40 {
        let p = h.allocate(SIZES[round % SIZES.len()], 16).unwrap();
        assert_ne!(p, 0);
        out.push(p - h.base());
        if round % 3 == 2 {
            h.free(p);
        }
    }
    out
}

#[test]
fn a_seed_fixes_the_layout_and_seeds_differ() {
    assert_eq!(addresses(7, 0x60_0000_0000), addresses(7, 0x61_0000_0000));
    assert_ne!(addresses(7, 0x62_0000_0000), addresses(8, 0x63_0000_0000));
}

#[test]
fn live_blocks_never_overlap_and_are_aligned() {
    let mut h = heap(3, 0x64_0000_0000);
    let mut live: Vec<(u64, u64)> = Vec::new();
    for round in 0..600usize {
        let size = SIZES[round % SIZES.len()] + round as u64 % 7;
        let align = if round % 5 == 0 { PAGE } else { 16 };
        let p = h.allocate(size, align).unwrap();
        assert_ne!(p, 0);
        assert_eq!(p % align, 0);
        assert!(h.usable(p) >= size);
        assert!(h.contains(p) && h.contains(p + size - 1));
        for &(q, n) in &live {
            assert!(
                p + size <= q || q + n <= p,
                "{p:#x}+{size} overlaps {q:#x}+{n}"
            );
        }
        live.push((p, size));
        if round % 2 == 1 {
            let (q, _) = live.swap_remove(round * 31 % live.len());
            h.free(q);
        }
    }
}

#[test]
fn two_blocks_compare_both_ways_across_seeds() {
    for sizes in [(40, 40), (24, 900), (5000, 300_000), (3 << 20, 3 << 20)] {
        let mut below = 0;
        for seed in 0..32 {
            let mut h = heap(seed, 0x65_0000_0000 + seed * REGION_SIZE);
            let (a, b) = (
                h.allocate(sizes.0, 16).unwrap(),
                h.allocate(sizes.1, 16).unwrap(),
            );
            below += usize::from(a < b);
        }
        assert!(
            (6..=26).contains(&below),
            "{sizes:?}: a<b on {below} of 32 seeds"
        );
    }
}

#[test]
fn a_freed_block_comes_straight_back_only_sometimes() {
    let mut h = heap(5, 0x66_0000_0000 + 40 * REGION_SIZE);
    let mut back = 0;
    for _ in 0..200 {
        let p = h.allocate(64, 16).unwrap();
        h.free(p);
        let q = h.allocate(64, 16).unwrap();
        back += usize::from(p == q);
        h.free(q);
    }
    assert!((60..=140).contains(&back), "{back} of 200");
}

#[test]
fn absurd_sizes_are_refused() {
    let mut h = heap(1, 0x68_0000_0000 + 90 * REGION_SIZE);
    for size in [
        u64::MAX,
        u64::MAX - 17,
        u64::MAX - 100,
        u64::MAX - 16_000,
        REGION_SIZE,
    ] {
        assert!(h.allocate(size, 16).is_none(), "{size:#x}");
    }
    assert!(h.allocate(64, 16).is_some());
    assert_eq!(good_size(u64::MAX - 3), u64::MAX - 3);
}

/// Scattered small blocks must not use up the room for big ones.
#[test]
fn big_blocks_fit_after_many_small_ones() {
    for seed in 0..6 {
        let mut h = heap(seed, 0x69_0000_0000 + (100 + seed) * REGION_SIZE);
        // 16,000 blocks of 40 KB: 625 MB live in about 16,000 slabs
        for _ in 0..16_000 {
            assert!(h.allocate(40_000, 16).is_some());
        }
        for size in [8 << 20, 256 << 20, 4 << 30, 64u64 << 30] {
            let p = h.allocate(size, 16);
            assert!(p.is_some(), "seed {seed}: {size:#x}");
            h.free(p.unwrap());
        }
    }
}

#[test]
fn a_freed_run_of_slabs_is_free_again() {
    let mut h = heap(9, 0x67_0000_0000 + 80 * REGION_SIZE);
    let p = h.allocate(3 << 20, 16).unwrap();
    assert_eq!(
        h.slabs_in_use() as u64,
        (3u64 << 20).div_ceil(SLAB) + 1
    );
    h.free(p);
    assert_eq!(h.slabs_in_use(), 0);
}

#[test]
fn a_compact_layout_reuses_the_last_block_and_grows_upwards() {
    let mut h = Heap::new(1 << 30);
    assert_eq!(h.allocate(10, 16), None);
    assert!(!h.contains(0x76_0000_0000));
    h.map(0x76_0000_0000);
    let a = h.allocate(10, 16).unwrap();
    let b = h.allocate(10, 16).unwrap();
    assert_eq!((a, b), (0x76_0000_0010, 0x76_0000_0030));
    assert_eq!(h.usable(a), 16);
    assert!(h.in_use(a));
    h.free(a);
    h.free(b);
    assert!(!h.in_use(a));
    assert_eq!(h.allocate(12, 16), Some(b));
    assert_eq!(h.allocate(12, 16), Some(a));
    // Whole pages, found again by their exact size
    let big = h.allocate(3 << 20, 16).unwrap();
    h.free(big);
    assert_ne!(h.allocate(2 << 20, 16), Some(big));
    assert_eq!(h.allocate(3 << 20, 16), Some(big));
    assert_eq!(h.allocate(1 << 30, 16), None);
}

#[test]
fn a_layout_is_seeded_before_it_is_used_and_reseeded_after() {
    let mut plain = Heap::new(REGION_SIZE);
    plain.map(1 << 30);
    plain.seed_layout(7);
    plain.reseed(7);
    assert_eq!(plain.allocate(1, 16), Some((1 << 30) + 16));
    let mut a = heap(7, 1 << 30);
    let mut b = heap(7, 1 << 30);
    b.reseed(8);
    let at = |h: &mut Heap| (0..8).map(|_| h.allocate(100, 16)).collect::<Vec<_>>();
    assert_ne!(at(&mut a), at(&mut b));
}

#[test]
fn sizes_and_alignments() {
    assert_eq!(good_size(0), 16);
    assert_eq!(good_size(16), 16);
    assert_eq!(good_size(17), 32);
    assert_eq!(good_size(1008), 1008);
    assert_eq!(good_size(1009), 2032);
    assert_eq!(good_size((1 << 20) - 16), (1 << 20) - 16);
    assert_eq!(good_size(1 << 20), (1 << 20) + 0x4000 - 16);
    assert!(stays(100, 50) && stays(100, 100));
    assert!(!stays(100, 49) && !stays(100, 101));
    for align in [8, 16, 0x4000, 1 << 63] {
        assert!(is_alignment(align));
    }
    for align in [0, 1, 4, 12, 24, u64::MAX] {
        assert!(!is_alignment(align));
    }
}

#[test]
fn the_calls_of_the_malloc_family() {
    let mut h = heap(7, 0x60_0000_0000);
    let p = h.many(10, 16).unwrap();
    let usable = h.usable(p);
    assert!(usable >= 160);
    assert_eq!(h.many(u64::MAX, 2), None);
    assert_eq!(h.resize(p, usable, true), Resized::Same);
    assert_eq!(h.resize(p, 1, false), Resized::Outside { bytes: 1 });
    let q = match h.resize(p, 10_000, true) {
        Resized::Moved { to, bytes } => {
            assert_eq!(bytes, usable);
            to
        }
        other => panic!("{other:?}"),
    };
    assert!(!h.in_use(p) && h.in_use(q));
    assert_eq!(h.resize(q, REGION_SIZE, true), Resized::Failed);
    assert!(h.in_use(q));
    assert_eq!(h.resize(8, 1, true), Resized::Elsewhere);
    // From outside the schedule a block is leaked
    assert_eq!(h.release(q, false), Release::Leaked(h.usable(q)));
    assert!(h.in_use(q));
    assert_eq!(h.release(q, true), Release::Freed);
    assert!(!h.in_use(q));
    assert_eq!(h.release(8, true), Release::Elsewhere);
    assert_eq!(h.aligned(48, 10), Err(Errno::Inval));
    assert_eq!(h.aligned(64, REGION_SIZE), Err(Errno::NoMem));
    assert_eq!(h.aligned(4096, 10).unwrap() % 4096, 0);
    assert_eq!(h.page(10).unwrap() % PAGE, 0);
    assert!(h.region_fixed(0x60_0000_0000) && !h.region_fixed(0x61_0000_0000));
}
