//! xoshiro256** seeded through `SplitMix64`, so that the stream for a given
//! seed is fixed forever. Shared by the rewriter (memory hook selection) and
//! the supervisor (quanta and thread choice).

use vstd::prelude::*;

verus! {

#[derive(Clone, Copy, Debug)]
pub struct Rng {
    pub s: [u64; 4],
}

/// Distance between two consecutive states of the seed expansion
pub const GOLDEN: u64 = 0x9E37_79B9_7F4A_7C15;

pub open spec fn rotated(x: u64, k: u64) -> u64 {
    (x << k) | (x >> ((64 - k) as u64))
}

/// The output of `SplitMix64` in state `x`
pub open spec fn mixed(x: u64) -> u64 {
    let a = (x ^ (x >> 30)).wrapping_mul(0xBF58_476D_1CE4_E5B9);
    let b = (a ^ (a >> 27)).wrapping_mul(0x94D0_49BB_1331_11EB);
    b ^ (b >> 31)
}

/// The four state words a seed expands to: the outputs of `SplitMix64` in
/// the next four states
pub open spec fn expanded(seed: u64) -> Seq<u64> {
    let x1 = seed.wrapping_add(GOLDEN);
    let x2 = x1.wrapping_add(GOLDEN);
    let x3 = x2.wrapping_add(GOLDEN);
    let x4 = x3.wrapping_add(GOLDEN);
    seq![mixed(x1), mixed(x2), mixed(x3), mixed(x4)]
}

/// The output of xoshiro256** in state `s`
pub open spec fn output(s: Seq<u64>) -> u64 {
    rotated(s[1].wrapping_mul(5), 7).wrapping_mul(9)
}

/// The state that follows `s`
pub open spec fn advanced(s: Seq<u64>) -> Seq<u64> {
    let c = s[2] ^ s[0];
    let d = s[3] ^ s[1];
    seq![s[0] ^ d, s[1] ^ c, c ^ (s[1] << 17), rotated(d, 45)]
}

/// The state after `n` outputs
pub open spec fn state_after(s: Seq<u64>, n: nat) -> Seq<u64>
    decreases n,
{
    if n == 0 {
        s
    } else {
        advanced(state_after(s, (n - 1) as nat))
    }
}

/// `x` scaled from `[0, 2^64)` to `[0, n)`
pub open spec fn scaled(x: u64, n: u64) -> int {
    (x as int * n as int) / 0x1_0000_0000_0000_0000
}

pub proof fn lemma_scaled_below(x: u64, n: u64)
    requires
        n > 0,
    ensures
        0 <= scaled(x, n) < n,
{
    assert(0 <= x as int * n as int) by (nonlinear_arith);
    assert(x as int * n as int <= 0xFFFF_FFFF_FFFF_FFFF * n) by (nonlinear_arith);
}

fn rotate(x: u64, k: u64) -> (r: u64)
    requires
        0 < k < 64,
    ensures
        r == rotated(x, k),
{
    (x << k) | (x >> (64 - k))
}

fn mix(x: u64) -> (r: u64)
    ensures
        r == mixed(x),
{
    let a: u64 = (x ^ (x >> 30)).wrapping_mul(0xBF58_476D_1CE4_E5B9);
    let b: u64 = (a ^ (a >> 27)).wrapping_mul(0x94D0_49BB_1331_11EB);
    b ^ (b >> 31)
}

impl View for Rng {
    type V = Seq<u64>;

    open spec fn view(&self) -> Seq<u64> {
        self.s@
    }
}

impl Rng {
    pub fn seed_from_u64(seed: u64) -> (r: Self)
        ensures
            r@ == expanded(seed),
    {
        let x1: u64 = seed.wrapping_add(GOLDEN);
        let x2: u64 = x1.wrapping_add(GOLDEN);
        let x3: u64 = x2.wrapping_add(GOLDEN);
        let x4: u64 = x3.wrapping_add(GOLDEN);
        let r = Rng { s: [mix(x1), mix(x2), mix(x3), mix(x4)] };
        assert(r@ =~= expanded(seed));
        r
    }

    pub fn next_u64(&mut self) -> (r: u64)
        ensures
            r == output(old(self)@),
            final(self)@ == advanced(old(self)@),
    {
        let (a, b, c, d) = (self.s[0], self.s[1], self.s[2], self.s[3]);
        let result: u64 = rotate(b.wrapping_mul(5), 7).wrapping_mul(9);
        let c: u64 = c ^ a;
        let d: u64 = d ^ b;
        self.s = [a ^ d, b ^ c, c ^ (b << 17), rotate(d, 45)];
        assert(self@ =~= advanced(old(self)@));
        result
    }

    /// Uniform value in `[0, n)`; `n` must be non-zero. Always consumes one
    /// output so the stream advances the same way regardless of `n`.
    pub fn below(&mut self, n: u64) -> (r: u64)
        requires
            n > 0,
        ensures
            r == scaled(output(old(self)@), n),
            r < n,
            final(self)@ == advanced(old(self)@),
    {
        let x: u64 = self.next_u64();
        proof {
            lemma_scaled_below(x, n);
            assert(x as u128 * n as u128 <= u128::MAX) by (nonlinear_arith)
                requires
                    x <= u64::MAX,
                    n <= u64::MAX,
            ;
            vstd::bits::lemma_u128_shr_is_div((x as u128 * n as u128) as u128, 64);
            vstd::arithmetic::power2::lemma2_to64();
        }
        ((x as u128 * n as u128) >> 64) as u64
    }

    /// Uniform value in `[lo, hi]`
    pub fn range_inclusive(&mut self, lo: u32, hi: u32) -> (r: u32)
        requires
            lo <= hi,
        ensures
            r == lo + scaled(output(old(self)@), (hi - lo + 1) as u64),
            lo <= r <= hi,
            final(self)@ == advanced(old(self)@),
    {
        lo + self.below((hi - lo) as u64 + 1) as u32
    }
}

/// Two generators with one seed give the same outputs forever.
pub proof fn same_seed_same_stream(a: Rng, b: Rng, seed: u64, n: nat)
    requires
        a@ == expanded(seed),
        b@ == expanded(seed),
    ensures
        output(state_after(a@, n)) == output(state_after(b@, n)),
{
}

} // verus!
