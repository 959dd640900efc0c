//! FNV-1a, 64 bits wide.

use vstd::prelude::*;
use crate::bytes::put_u64;
use crate::bytes;

verus! {

/// The hash of nothing
pub const BASIS: u64 = 0xCBF2_9CE4_8422_2325;

pub const PRIME: u64 = 0x0100_0000_01B3;

/// The hash `h` carried on over bytes
pub open spec fn folded(h: u64, b: Seq<u8>) -> u64
    decreases b.len(),
{
    if b.len() == 0 {
        h
    } else {
        folded((h ^ b[0] as u64).wrapping_mul(PRIME), b.skip(1))
    }
}

/// Carry the hash `h` on over bytes.
pub fn fold(h: u64, b: &[u8]) -> (r: u64)
    ensures
        r == folded(h, b@),
{
    let mut r: u64 = h;
    let mut i: usize = 0;
    assert(b@.skip(0) =~= b@);
    while i < b.len()
        invariant
            i <= b@.len(),
            folded(h, b@) == folded(r, b@.skip(i as int)),
        decreases b@.len() - i,
    {
        assert(b@.skip(i as int).skip(1) =~= b@.skip(i + 1));
        r = (r ^ b[i] as u64).wrapping_mul(PRIME);
        i += 1;
    }
    r
}

/// The hash `h` carried on over a number
pub open spec fn folded_number(h: u64, v: u64) -> u64 {
    folded(h, bytes::le64(v))
}

/// Carry the hash `h` on over a number.
pub fn fnv(h: u64, v: u64) -> (r: u64)
    ensures
        r == folded_number(h, v),
{
    let mut b: Vec<u8> = vec![0; 8];
    put_u64(&mut b, 0, v);
    assert(b@ =~= bytes::le64(v));
    fold(h, b.as_slice())
}

/// A hash is carried on byte by byte: each is folded in and the whole multiplied
/// by the prime, and two stretches one after the other are one.
pub proof fn a_hash_is_carried_on(h: u64, a: Seq<u8>, b: Seq<u8>, x: u8)
    ensures
        folded(h, Seq::empty()) == h,
        folded(h, seq![x]) == (h ^ x as u64).wrapping_mul(0x100_0000_01B3),
        folded(h, a + b) == folded(folded(h, a), b),
    decreases a.len(),
{
    reveal_with_fuel(folded, 2);
    assert(seq![x].skip(1) =~= Seq::<u8>::empty());
    if a.len() > 0 {
        a_hash_is_carried_on((h ^ a[0] as u64).wrapping_mul(PRIME), a.skip(1), b, x);
        assert((a + b).skip(1) =~= a.skip(1) + b);
    } else {
        assert(a + b =~= b);
    }
}

} // verus!
