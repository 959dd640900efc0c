//! Little-endian numbers in byte strings.

use vstd::prelude::*;

verus! {

/// The bytes of `v` from the lowest up
pub open spec fn le32(v: u32) -> Seq<u8> {
    seq![
        (v % 0x100) as u8,
        (v / 0x100 % 0x100) as u8,
        (v / 0x1_0000 % 0x100) as u8,
        (v / 0x100_0000) as u8,
    ]
}

pub open spec fn le64(v: u64) -> Seq<u8> {
    le32((v % 0x1_0000_0000) as u32) + le32((v / 0x1_0000_0000) as u32)
}

pub open spec fn le16(v: u16) -> Seq<u8> {
    seq![(v % 0x100) as u8, (v / 0x100) as u8]
}

/// The number whose bytes stand at `at`
pub open spec fn at16(b: Seq<u8>, at: int) -> u16 {
    (b[at] + 0x100 * b[at + 1]) as u16
}

pub open spec fn at32(b: Seq<u8>, at: int) -> u32 {
    (b[at] + 0x100 * b[at + 1] + 0x1_0000 * b[at + 2] + 0x100_0000 * b[at + 3]) as u32
}

pub open spec fn at64(b: Seq<u8>, at: int) -> u64 {
    (at32(b, at) + 0x1_0000_0000 * at32(b, at + 4)) as u64
}

/// `b` with the bytes `t` laid over it from `at` on
pub open spec fn overlaid(b: Seq<u8>, at: int, t: Seq<u8>) -> Seq<u8> {
    Seq::new(
        b.len(),
        |i: int|
            if at <= i < at + t.len() {
                t[i - at]
            } else {
                b[i]
            },
    )
}

/// `n` zero bytes
pub open spec fn zeros(n: nat) -> Seq<u8> {
    Seq::new(n, |i: int| 0u8)
}

/// `b` filled up with zeros to `n` bytes
pub open spec fn padded(b: Seq<u8>, n: nat) -> Seq<u8> {
    b + zeros((n - b.len()) as nat)
}

pub fn u16_at(b: &[u8], off: usize) -> (r: Option<u16>)
    ensures
        r == (if off + 2 <= b@.len() {
            Some(at16(b@, off as int))
        } else {
            None
        }),
{
    if b.len() < 2 || off > b.len() - 2 {
        return None;
    }
    Some(b[off] as u16 + 0x100 * b[off + 1] as u16)
}

pub fn u32_at(b: &[u8], off: usize) -> (r: Option<u32>)
    ensures
        r == (if off + 4 <= b@.len() {
            Some(at32(b@, off as int))
        } else {
            None
        }),
{
    if b.len() < 4 || off > b.len() - 4 {
        return None;
    }
    Some(
        b[off] as u32 + 0x100 * b[off + 1] as u32 + 0x1_0000 * b[off + 2] as u32 + 0x100_0000
            * b[off + 3] as u32,
    )
}

pub fn u64_at(b: &[u8], off: usize) -> (r: Option<u64>)
    ensures
        r == (if off + 8 <= b@.len() {
            Some(at64(b@, off as int))
        } else {
            None
        }),
{
    if b.len() < 8 || off > b.len() - 8 {
        return None;
    }
    let low: u32 = u32_at(b, off).unwrap();
    let high: u32 = u32_at(b, off + 4).unwrap();
    Some(low as u64 + 0x1_0000_0000 * high as u64)
}

/// The bytes of `b` from `from` up to `to`
pub fn cut(b: &[u8], from: usize, to: usize) -> (r: Vec<u8>)
    requires
        from <= to <= b@.len(),
    ensures
        r@ == b@.subrange(from as int, to as int),
{
    vstd::slice::slice_to_vec(vstd::slice::slice_subrange(b, from, to))
}

/// Lay `t` over `b` from `at` on.
pub fn lay(b: &mut Vec<u8>, at: usize, t: &[u8])
    requires
        at + t@.len() <= old(b)@.len(),
    ensures
        final(b)@ == overlaid(old(b)@, at as int, t@),
{
    let mut i: usize = 0;
    let n: usize = b.len();
    assert(b@ =~= overlaid(old(b)@, at as int, t@.take(0)));
    while i < t.len()
        invariant
            i <= t@.len(),
            n == old(b)@.len(),
            at + t@.len() <= n,
            b@.len() == old(b)@.len(),
            b@ == overlaid(old(b)@, at as int, t@.take(i as int)),
        decreases t@.len() - i,
    {
        b.set(at + i, t[i]);
        i += 1;
        assert(b@ =~= overlaid(old(b)@, at as int, t@.take(i as int)));
    }
    assert(t@.take(i as int) =~= t@);
}

/// The bytes of `v` from the lowest up
pub fn bytes32(v: u32) -> (r: Vec<u8>)
    ensures
        r@ == le32(v),
{
    let mut out: Vec<u8> = Vec::new();
    out.push((v % 0x100) as u8);
    out.push((v / 0x100 % 0x100) as u8);
    out.push((v / 0x1_0000 % 0x100) as u8);
    out.push((v / 0x100_0000) as u8);
    assert(out@ =~= le32(v));
    out
}

pub fn bytes64(v: u64) -> (r: Vec<u8>)
    ensures
        r@ == le64(v),
{
    let mut out: Vec<u8> = bytes32((v % 0x1_0000_0000) as u32);
    let mut high: Vec<u8> = bytes32((v / 0x1_0000_0000) as u32);
    out.append(&mut high);
    out
}

pub fn put_u32(b: &mut Vec<u8>, off: usize, v: u32)
    requires
        off + 4 <= old(b)@.len(),
    ensures
        final(b)@ == overlaid(old(b)@, off as int, le32(v)),
{
    let t = bytes32(v);
    lay(b, off, t.as_slice());
}

pub fn put_u64(b: &mut Vec<u8>, off: usize, v: u64)
    requires
        off + 8 <= old(b)@.len(),
    ensures
        final(b)@ == overlaid(old(b)@, off as int, le64(v)),
{
    assert(off + 8 <= b.len());
    put_u32(b, off, (v % 0x1_0000_0000) as u32);
    put_u32(b, off + 4, (v / 0x1_0000_0000) as u32);
    assert(b@ =~= overlaid(old(b)@, off as int, le64(v)));
}

/// Append `n` zero bytes.
pub fn push_zeros(b: &mut Vec<u8>, n: usize)
    requires
        old(b)@.len() + n <= usize::MAX,
    ensures
        final(b)@ == old(b)@ + zeros(n as nat),
{
    let mut i: usize = 0;
    assert(b@ =~= old(b)@ + zeros(0));
    while i < n
        invariant
            i <= n,
            b@ == old(b)@ + zeros(i as nat),
        decreases n - i,
    {
        b.push(0);
        i += 1;
        assert(b@ =~= old(b)@ + zeros(i as nat));
    }
}

/// Whether two byte strings are the same
pub fn same(a: &[u8], b: &[u8]) -> (r: bool)
    ensures
        r == (a@ == b@),
{
    if a.len() != b.len() {
        return false;
    }
    let mut i: usize = 0;
    while i < a.len()
        invariant
            i <= a@.len() == b@.len(),
            forall|k: int| 0 <= k < i ==> a@[k] == b@[k],
        decreases a@.len() - i,
    {
        if a[i] != b[i] {
            return false;
        }
        i += 1;
    }
    assert(a@ =~= b@);
    true
}

/// Whether `prefix` begins `s`
pub fn starts_with(s: &[u8], prefix: &[u8]) -> (r: bool)
    ensures
        r == prefix@.is_prefix_of(s@),
{
    if prefix.len() > s.len() {
        return false;
    }
    let mut i: usize = 0;
    while i < prefix.len()
        invariant
            i <= prefix@.len() <= s@.len(),
            forall|k: int| 0 <= k < i ==> s@[k] == prefix@[k],
        decreases prefix@.len() - i,
    {
        if s[i] != prefix[i] {
            assert(s@.subrange(0, prefix@.len() as int)[i as int] != prefix@[i as int]);
            return false;
        }
        i += 1;
    }
    assert(s@.subrange(0, prefix@.len() as int) =~= prefix@);
    true
}

pub proof fn lemma_at32(t: Seq<u8>, at: int, v: u32)
    requires
        0 <= at,
        at + 4 <= t.len(),
        t.subrange(at, at + 4) == le32(v),
    ensures
        at32(t, at) == v,
{
    let s = t.subrange(at, at + 4);
    assert(t[at] == s[0] && t[at + 1] == s[1] && t[at + 2] == s[2] && t[at + 3] == s[3]);
    assert(v / 0x100 / 0x100 == v / 0x1_0000);
    assert(v / 0x1_0000 / 0x100 == v / 0x100_0000);
}

/// A number reads back from where its bytes were laid.
pub proof fn numbers_read_back(b: Seq<u8>, at: int, v: u32, w: u64)
    requires
        0 <= at,
    ensures
        at + 4 <= b.len() ==> at32(overlaid(b, at, le32(v)), at) == v,
        at + 8 <= b.len() ==> at64(overlaid(b, at, le64(w)), at) == w,
{
    if at + 4 <= b.len() {
        let t = overlaid(b, at, le32(v));
        assert(t.subrange(at, at + 4) =~= le32(v));
        lemma_at32(t, at, v);
    }
    if at + 8 <= b.len() {
        let t = overlaid(b, at, le64(w));
        let lo = (w % 0x1_0000_0000) as u32;
        let hi = (w / 0x1_0000_0000) as u32;
        assert(t.subrange(at, at + 4) =~= le32(lo));
        assert(t.subrange(at + 4, at + 8) =~= le32(hi));
        lemma_at32(t, at, lo);
        lemma_at32(t, at + 4, hi);
    }
}

} // verus!
