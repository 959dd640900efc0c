//! Which words are which instructions, by their encodings

use vstd::prelude::*;
use super::Class;

verus! {

/// A read of the counter is known for what it is, whichever register it goes
/// to and wherever it stands, and nothing else is taken for one:
/// `mrs xT, cntvct_el0` is `0xD53BE040 | T`, `mrs xT, cntpct_el0` is
/// `0xD53BE020 | T`.
pub proof fn counter_reads_are_known(w: u32, t: u32, pc: u64)
    requires
        t < 32,
    ensures
        super::class_of(0xD53B_E040 | t, pc) == (Class::Counter { rt: t as u8 }),
        super::class_of(0xD53B_E020 | t, pc) == (Class::Counter { rt: t as u8 }),
        super::class_of(w, pc) is Counter ==> w & 0xFFFF_FFE0 == 0xD53B_E040 || w & 0xFFFF_FFE0
            == 0xD53B_E020,
{
    reveal(super::class_of);
    super::lemma_masks(w);
    assert(super::field(0xD53B_E040 | t, 5, 0x7FF_FFFF) == 0x6A9_DF02 && super::field(
        0xD53B_E040 | t,
        0,
        0x1F,
    ) == t && super::field(0xD53B_E020 | t, 5, 0x7FF_FFFF) == 0x6A9_DF01 && super::field(
        0xD53B_E020 | t,
        0,
        0x1F,
    ) == t) by (bit_vector)
        requires
            t < 32,
    ;
}

/// Jumps, calls and returns through a register are known, whichever it is:
/// `br xN` is `0xD61F0000 | N << 5`, `blr xN` is `0xD63F0000 | N << 5` and
/// `ret xN` is `0xD65F0000 | N << 5`. So is `svc #imm`,
/// `0xD4000001 | imm << 5`.
pub proof fn register_branches_are_known(n: u32, imm: u32, pc: u64)
    requires
        n < 32,
        imm < 0x1_0000,
    ensures
        super::class_of(0xD61F_0000 | (n << 5), pc) == (Class::Br { rn: n as u8 }),
        super::class_of(0xD63F_0000 | (n << 5), pc) == (Class::Blr { rn: n as u8 }),
        super::class_of(0xD65F_0000 | (n << 5), pc) == Class::Ret,
        super::class_of(0xD400_0001 | (imm << 5), pc) == Class::Svc,
{
    reveal(super::class_of);
    let br = 0xD61F_0000 | (n << 5);
    let blr = 0xD63F_0000 | (n << 5);
    let ret = 0xD65F_0000 | (n << 5);
    let svc = 0xD400_0001 | (imm << 5);
    super::lemma_masks(br);
    super::lemma_masks(blr);
    super::lemma_masks(ret);
    super::lemma_masks(svc);
    assert(br & 0xFFFF_FC1F == 0xD61F_0000 && blr & 0xFFFF_FC1F == 0xD63F_0000 && ret & 0xFFFF_FC1F
        == 0xD65F_0000 && svc & 0xFFE0_001F == 0xD400_0001 && super::field(br, 5, 0x1F) == n
        && super::field(blr, 5, 0x1F) == n && br & 0xFFFF_FFE0 != 0xD53B_E040 && br & 0xFFFF_FFE0
        != 0xD53B_E020 && br & 0xFC00_0000 == 0xD400_0000 && blr & 0xFFFF_FFE0 != 0xD53B_E040 && blr
        & 0xFFFF_FFE0 != 0xD53B_E020 && blr & 0xFC00_0000 == 0xD400_0000 && ret & 0xFFFF_FFE0
        != 0xD53B_E040 && ret & 0xFFFF_FFE0 != 0xD53B_E020 && ret & 0xFC00_0000 == 0xD400_0000
        && svc & 0xFFFF_FFE0 != 0xD53B_E040 && svc & 0xFFFF_FFE0 != 0xD53B_E020 && svc
        & 0xFC00_0000 == 0xD400_0000 && br & 0xFF00_0000 == 0xD600_0000 && blr & 0xFF00_0000
        == 0xD600_0000 && ret & 0xFF00_0000 == 0xD600_0000 && svc & 0xFF00_0000 == 0xD400_0000
        && br & 0x7E00_0000 == 0x5600_0000 && blr & 0x7E00_0000 == 0x5600_0000 && ret & 0x7E00_0000
        == 0x5600_0000 && svc & 0x7E00_0000 == 0x5400_0000 && blr & 0xFFFF_FC1F != 0xD61F_0000 && ret
        & 0xFFFF_FC1F != 0xD61F_0000 && ret & 0xFFFF_FC1F != 0xD63F_0000 && svc & 0xFFFF_FC1F
        != 0xD61F_0000 && svc & 0xFFFF_FC1F != 0xD63F_0000 && svc & 0xFFFF_FC1F != 0xD65F_0000)
        by (bit_vector)
        requires
            n < 32,
            imm < 0x1_0000,
            br == 0xD61F_0000 | (n << 5),
            blr == 0xD63F_0000 | (n << 5),
            ret == 0xD65F_0000 | (n << 5),
            svc == 0xD400_0001 | (imm << 5),
    ;
}

/// Where a branch leads that holds the word offset `imm` of `bits` bits, the
/// highest of them its sign
pub open spec fn leads(pc: u64, imm: u32, bits: u32, target: u64) -> bool {
    let size = if bits == 26 {
        0x400_0000int
    } else if bits == 19 {
        0x8_0000
    } else {
        0x4000
    };
    let words = if 2 * imm < size {
        imm as int
    } else {
        imm - size
    };
    (target - (pc + 4 * words)) % 0x1_0000_0000_0000_0000 == 0
}

/// Direct branches are known, with where they lead: `b` is `0x14000000`, `bl`
/// is `0x94000000`, each with its word offset in the low 26 bits.
pub proof fn direct_branches_are_known(imm: u32, pc: u64)
    requires
        imm < 0x400_0000,
    ensures
        super::class_of(0x1400_0000 | imm, pc) matches Class::B { target } && leads(
            pc,
            imm,
            26,
            target,
        ),
        super::class_of(0x9400_0000 | imm, pc) matches Class::Bl { target } && leads(
            pc,
            imm,
            26,
            target,
        ),
{
    reveal(super::class_of);
    let b = 0x1400_0000 | imm;
    let bl = 0x9400_0000 | imm;
    super::lemma_masks(b);
    super::lemma_masks(bl);
    assert(b & 0xFC00_0000 == 0x1400_0000 && bl & 0xFC00_0000 == 0x9400_0000 && super::field(
        b,
        0,
        0x3FF_FFFF,
    ) == imm && super::field(bl, 0, 0x3FF_FFFF) == imm && b & 0xFFFF_FFE0 != 0xD53B_E040 && b
        & 0xFFFF_FFE0 != 0xD53B_E020 && bl & 0xFFFF_FFE0 != 0xD53B_E040 && bl & 0xFFFF_FFE0
        != 0xD53B_E020 && bl & 0xFC00_0000 != 0x1400_0000) by (bit_vector)
        requires
            imm < 0x400_0000,
            b == 0x1400_0000 | imm,
            bl == 0x9400_0000 | imm,
    ;
}

/// Conditional branches are known, with what they test and where they lead:
/// `b.cond` is `0x54000000 | imm << 5 | cond`, of which conditions 14 and 15
/// always hold; `cbz` is `0x34000000`, `cbnz` `0x35000000`, with bit 31 for 64
/// bits; `tbz` is `0x36000000`, `tbnz` `0x37000000`, with the bit's number in
/// bit 31 and the bits from 19.
pub proof fn conditional_branches_are_known(
    imm: u32,
    near: u32,
    cond: u32,
    t: u32,
    wide: u32,
    bit: u32,
    pc: u64,
)
    requires
        imm < 0x8_0000,
        near < 0x4000,
        cond < 16,
        t < 32,
        wide < 2,
        bit < 32,
    ensures
        cond < 14 ==> (super::class_of(0x5400_0000 | (imm << 5) | cond, pc) matches Class::BCond {
            cond: c,
            target,
        } && c == cond && leads(pc, imm, 19, target)),
        cond >= 14 ==> (super::class_of(0x5400_0000 | (imm << 5) | cond, pc) matches Class::B {
            target,
        } && leads(pc, imm, 19, target)),
        super::class_of((wide << 31) | 0x3400_0000 | (imm << 5) | t, pc) matches Class::Cbz {
            sf,
            rt,
            nonzero,
            target,
        } && sf == (wide == 1) && rt == t && !nonzero && leads(pc, imm, 19, target),
        super::class_of((wide << 31) | 0x3500_0000 | (imm << 5) | t, pc) matches Class::Cbz {
            sf,
            rt,
            nonzero,
            target,
        } && sf == (wide == 1) && rt == t && nonzero && leads(pc, imm, 19, target),
        super::class_of(
            (wide << 31) | 0x3600_0000 | (bit << 19) | (near << 5) | t,
            pc,
        ) matches Class::Tbz { rt, bit: b, nonzero, target } && rt == t && b == 32 * wide + bit
            && !nonzero && leads(pc, near, 14, target),
        super::class_of(
            (wide << 31) | 0x3700_0000 | (bit << 19) | (near << 5) | t,
            pc,
        ) matches Class::Tbz { rt, bit: b, nonzero, target } && rt == t && b == 32 * wide + bit
            && nonzero && leads(pc, near, 14, target),
{
    lemma_bcond(imm, cond, pc);
    assert(0x3400_0000u32 | (1u32 << 24) == 0x3500_0000 && 0x3400_0000u32 | (0u32 << 24)
        == 0x3400_0000 && 0x3600_0000u32 | (1u32 << 24) == 0x3700_0000 && 0x3600_0000u32 | (0u32
        << 24) == 0x3600_0000) by (bit_vector);
    lemma_cbz((wide << 31) | 0x3400_0000 | (imm << 5) | t, imm, t, wide, 0, pc);
    lemma_cbz((wide << 31) | 0x3500_0000 | (imm << 5) | t, imm, t, wide, 1, pc);
    lemma_tbz(
        (wide << 31) | 0x3600_0000 | (bit << 19) | (near << 5) | t,
        near,
        t,
        wide,
        bit,
        0,
        pc,
    );
    lemma_tbz(
        (wide << 31) | 0x3700_0000 | (bit << 19) | (near << 5) | t,
        near,
        t,
        wide,
        bit,
        1,
        pc,
    );
}

proof fn lemma_bcond(imm: u32, cond: u32, pc: u64)
    requires
        imm < 0x8_0000,
        cond < 16,
    ensures
        cond < 14 ==> (super::class_of(0x5400_0000 | (imm << 5) | cond, pc) matches Class::BCond {
            cond: c,
            target,
        } && c == cond && leads(pc, imm, 19, target)),
        cond >= 14 ==> (super::class_of(0x5400_0000 | (imm << 5) | cond, pc) matches Class::B {
            target,
        } && leads(pc, imm, 19, target)),
{
    reveal(super::class_of);
    let w = 0x5400_0000 | (imm << 5) | cond;
    super::lemma_masks(w);
    assert(w & 0xFF00_0000 == 0x5400_0000 && super::field(w, 5, 0x7_FFFF) == imm && super::field(
        w,
        0,
        0xF,
    ) == cond && w & 0xFFFF_FFE0 != 0xD53B_E040 && w & 0xFFFF_FFE0 != 0xD53B_E020 && w & 0xFC00_0000
        == 0x5400_0000) by (bit_vector)
        requires
            imm < 0x8_0000,
            cond < 16,
            w == 0x5400_0000 | (imm << 5) | cond,
    ;
}

proof fn lemma_cbz(w: u32, imm: u32, t: u32, wide: u32, nonzero: u32, pc: u64)
    requires
        imm < 0x8_0000,
        t < 32,
        wide < 2,
        nonzero < 2,
        w == (wide << 31) | (0x3400_0000 | (nonzero << 24)) | (imm << 5) | t,
    ensures
        super::class_of(w, pc) matches Class::Cbz { sf, rt, nonzero: n, target } && sf == (wide
            == 1) && rt == t && n == (nonzero == 1) && leads(pc, imm, 19, target),
{
    reveal(super::class_of);
    super::lemma_masks(w);
    assert(w & 0x7E00_0000 == 0x3400_0000 && super::field(w, 5, 0x7_FFFF) == imm && super::field(
        w,
        0,
        0x1F,
    ) == t && super::bit(w, 31) == (wide == 1) && super::bit(w, 24) == (nonzero == 1) && w
        & 0xFFFF_FFE0 != 0xD53B_E040 && w & 0xFFFF_FFE0 != 0xD53B_E020 && w & 0xFC00_0000
        != 0x1400_0000 && w & 0xFC00_0000 != 0x9400_0000 && w & 0xFF00_0000 != 0x5400_0000)
        by (bit_vector)
        requires
            imm < 0x8_0000,
            t < 32,
            wide < 2,
            nonzero < 2,
            w == (wide << 31) | (0x3400_0000 | (nonzero << 24)) | (imm << 5) | t,
    ;
}

proof fn lemma_tbz(w: u32, imm: u32, t: u32, wide: u32, bit: u32, nonzero: u32, pc: u64)
    requires
        imm < 0x4000,
        t < 32,
        wide < 2,
        bit < 32,
        nonzero < 2,
        w == (wide << 31) | (0x3600_0000 | (nonzero << 24)) | (bit << 19) | (imm << 5) | t,
    ensures
        super::class_of(w, pc) matches Class::Tbz { rt, bit: b, nonzero: n, target } && rt == t && b
            == 32 * wide + bit && n == (nonzero == 1) && leads(pc, imm, 14, target),
{
    reveal(super::class_of);
    super::lemma_masks(w);
    assert(w & 0x7E00_0000 == 0x3600_0000 && super::field(w, 5, 0x3FFF) == imm && super::field(
        w,
        0,
        0x1F,
    ) == t && super::field(w, 31, 1) == wide && super::field(w, 19, 0x1F) == bit && super::bit(
        w,
        24,
    ) == (nonzero == 1) && w & 0xFFFF_FFE0 != 0xD53B_E040 && w & 0xFFFF_FFE0 != 0xD53B_E020 && w
        & 0xFC00_0000 != 0x1400_0000 && w & 0xFC00_0000 != 0x9400_0000 && w & 0xFF00_0000
        != 0x5400_0000) by (bit_vector)
        requires
            imm < 0x4000,
            t < 32,
            wide < 2,
            bit < 32,
            nonzero < 2,
            w == (wide << 31) | (0x3600_0000 | (nonzero << 24)) | (bit << 19) | (imm << 5) | t,
    ;
}

/// A word in the loads and stores is none of the branches.
proof fn lemma_memory(w: u32, pc: u64)
    requires
        w & 0x0A00_0000 == 0x0800_0000,
    ensures
        super::class_of(w, pc) == super::mem_class_of(w),
{
    reveal(super::class_of);
    super::lemma_masks(w);
    assert(w & 0xFFFF_FFE0 != 0xD53B_E040 && w & 0xFFFF_FFE0 != 0xD53B_E020 && w & 0xFC00_0000
        != 0x1400_0000 && w & 0xFC00_0000 != 0x9400_0000 && w & 0xFF00_0000 != 0x5400_0000 && w
        & 0x7E00_0000 != 0x3400_0000 && w & 0x7E00_0000 != 0x3600_0000 && w & 0xFFFF_FC1F
        != 0xD61F_0000 && w & 0xFFFF_FC1F != 0xD63F_0000 && w & 0xFFFF_FC1F != 0xD65F_0000 && w
        & 0xFFE0_001F != 0xD400_0001) by (bit_vector)
        requires
            w & 0x0A00_0000 == 0x0800_0000,
    ;
}

/// Exclusive loads and stores are told apart from each other and from the
/// rest: of the words whose bits 29 to 24 are `001000`, with bit 23 clear and
/// not `casp`, one with bit 22 loads (`ldxr`, `ldaxr`, `ldxp`) and one without
/// stores (`stxr`, `stlxr`, `stxp`). Nothing else is either.
pub proof fn exclusives_are_known(w: u32, pc: u64)
    ensures
        super::class_of(w, pc) is ExclusiveLoad <==> w & 0x3FC0_0000 == 0x0840_0000 && (w
            & 0x8000_0000 != 0 || w & 0x0020_0000 == 0),
        super::class_of(w, pc) is ExclusiveStore <==> w & 0x3FC0_0000 == 0x0800_0000 && (w
            & 0x8000_0000 != 0 || w & 0x0020_0000 == 0),
{
    super::lemma_masks(w);
    super::lemma_mem_masks(w);
    assert((w & 0x3FC0_0000 == 0x0840_0000) == (w & 0x3F00_0000 == 0x0800_0000 && w & 0x0080_0000
        == 0 && w & 0x0040_0000 != 0) && (w & 0x3FC0_0000 == 0x0800_0000) == (w & 0x3F00_0000
        == 0x0800_0000 && w & 0x0080_0000 == 0 && w & 0x0040_0000 == 0) && ((w & 0x8000_0000 != 0)
        == (w >> 31 != 0)) && (w & 0x3F00_0000 == 0x0800_0000 ==> w & 0x0A00_0000 == 0x0800_0000
        && w & 0x3B00_0000 != 0x1800_0000)) by (bit_vector);
    if w & 0x0A00_0000 == 0x0800_0000 {
        lemma_memory(w, pc);
    } else {
        reveal(super::class_of);
    }
}

/// Loads and stores that can be moved are known, with the register their
/// address comes from, `N` in bits 9 to 5: by an unsigned offset
/// (`ldr`, `str`: bits 29 to 27 are `111`, bits 25 and 24 `01`), of a pair
/// (`ldp`, `stp`: `101` and bit 25 clear), by an offset that changes the
/// register or not (`ldur`, and before or after: `111`, `00`, bit 21 clear,
/// but not the unprivileged ones), by a register (bit 21 set, bits 11 and 10
/// `10`), the atomic ones (bit 21 set, `00`), those with an order (`ldar`,
/// `stlr`, `cas`) and `casp`, and those of vectors. Prefetches are none.
pub proof fn memory_accesses_are_known(w: u32, pc: u64)
    ensures
        ({
            let mem = super::class_of(w, pc) matches Class::Mem { base } && base == (w >> 5) & 0x1F;
            let kind = w & 0x3B00_0000;
            let low = (w >> 10) & 3;
            &&& kind == 0x3900_0000 && w & 0xFFC0_0000 != 0xF980_0000 ==> mem
            &&& w & 0x3A00_0000 == 0x2800_0000 ==> mem
            &&& kind == 0x3800_0000 && w & 0x0020_0000 == 0 && low != 2 && w & 0xFFE0_0C00
                != 0xF880_0000 ==> mem
            &&& kind == 0x3800_0000 && w & 0x0020_0000 != 0 && low == 2 && w & 0xFFE0_0C00
                != 0xF8A0_0800 ==> mem
            &&& kind == 0x3800_0000 && w & 0x0020_0000 != 0 && low == 0 ==> mem
            &&& w & 0x3F80_0000 == 0x0880_0000 ==> mem
            &&& w & 0xBFA0_0000 == 0x0820_0000 ==> mem
            &&& w & 0xBF00_0000 == 0x0C00_0000 ==> mem
        }),
{
    super::lemma_masks(w);
    super::lemma_mem_masks(w);
    assert((w & 0x3B00_0000 == 0x3900_0000 || w & 0x3A00_0000 == 0x2800_0000 || w & 0x3B00_0000
        == 0x3800_0000 || w & 0x3F80_0000 == 0x0880_0000 || w & 0xBFA0_0000 == 0x0820_0000 || w
        & 0xBF00_0000 == 0x0C00_0000) ==> w & 0x0A00_0000 == 0x0800_0000) by (bit_vector);
    assert((w & 0x3F80_0000 == 0x0880_0000) == (w & 0x3F00_0000 == 0x0800_0000 && w & 0x0080_0000
        != 0) && (w & 0xBFA0_0000 == 0x0820_0000 ==> w & 0x3F00_0000 == 0x0800_0000 && w
        & 0x0020_0000 != 0 && w >> 31 == 0) && (w & 0x3B00_0000 == 0x3900_0000 ==> w & 0x3F00_0000
        != 0x0800_0000 && w & 0xBF00_0000 != 0x0C00_0000) && (w & 0x3B00_0000 == 0x3800_0000 ==> w
        & 0x3F00_0000 != 0x0800_0000 && w & 0xBF00_0000 != 0x0C00_0000) && (w & 0x3A00_0000
        == 0x2800_0000 ==> w & 0x3F00_0000 != 0x0800_0000 && w & 0xBF00_0000 != 0x0C00_0000 && w
        & 0x3B00_0000 != 0x3900_0000 && w & 0x3B00_0000 != 0x3800_0000 && w & 0x3B00_0000
        != 0x1800_0000) && (w & 0xBF00_0000 == 0x0C00_0000 ==> w & 0x3F00_0000 != 0x0800_0000 && w
        & 0x3B00_0000 != 0x1800_0000) && (w & 0x3F00_0000 == 0x0800_0000 ==> w & 0x3B00_0000
        != 0x1800_0000)) by (bit_vector);
    assert((w & 0xFFE0_0C00 == 0xF880_0000) == (super::field(w, 22, 0x3FF) == 0b1111100010
        && !super::bit(w, 21) && super::field(w, 10, 3) == 0) && (w & 0xFFE0_0C00 == 0xF8A0_0800)
        == (super::field(w, 22, 0x3FF) == 0b1111100010 && super::bit(w, 21) && super::field(
        w,
        10,
        3,
    ) == 2) && (w >> 10) & 3 < 4 && super::field(w, 10, 3) == (w >> 10) & 3 && super::field(
        w,
        5,
        0x1F,
    ) == (w >> 5) & 0x1F && (w >> 5) & 0x1F < 32) by (bit_vector);
    if w & 0x0A00_0000 == 0x0800_0000 {
        lemma_memory(w, pc);
    }
}

/// What reads no shared memory, or cannot be moved, is left alone: loads from
/// beside the code (`ldr xT, label`), prefetches, and the unprivileged.
pub proof fn other_accesses_are_left_alone(w: u32, pc: u64)
    ensures
        w & 0x3B00_0000 == 0x1800_0000 ==> super::class_of(w, pc) == Class::Other,
        w & 0xFFC0_0000 == 0xF980_0000 ==> super::class_of(w, pc) == Class::Other,
        w & 0xFFE0_0C00 == 0xF880_0000 ==> super::class_of(w, pc) == Class::Other,
        w & 0xFFE0_0C00 == 0xF8A0_0800 ==> super::class_of(w, pc) == Class::Other,
        w & 0x3B20_0C00 == 0x3800_0800 ==> super::class_of(w, pc) == Class::Other,
        w & 0x3B20_0400 == 0x3820_0400 ==> super::class_of(w, pc) == Class::Other,
{
    super::lemma_masks(w);
    super::lemma_mem_masks(w);
    assert((w & 0x3B00_0000 == 0x1800_0000 || w & 0xFFC0_0000 == 0xF980_0000 || w & 0xFFE0_0C00
        == 0xF880_0000 || w & 0xFFE0_0C00 == 0xF8A0_0800 || w & 0x3B20_0C00 == 0x3800_0800 || w
        & 0x3B20_0400 == 0x3820_0400) ==> w & 0x0A00_0000 == 0x0800_0000) by (bit_vector);
    assert((w & 0xFFC0_0000 == 0xF980_0000 ==> w & 0x3B00_0000 == 0x3900_0000 && w & 0x3F00_0000
        != 0x0800_0000 && w & 0xBF00_0000 != 0x0C00_0000 && w & 0x3B00_0000 != 0x1800_0000) && (w
        & 0xFFE0_0C00 == 0xF880_0000 ==> w & 0x3B00_0000 == 0x3800_0000 && w & 0x0020_0000 == 0
        && super::field(w, 10, 3) == 0) && (w & 0xFFE0_0C00 == 0xF8A0_0800 ==> w & 0x3B00_0000
        == 0x3800_0000 && w & 0x0020_0000 != 0 && super::field(w, 10, 3) == 2) && (w & 0x3B20_0C00
        == 0x3800_0800 ==> w & 0x3B00_0000 == 0x3800_0000 && w & 0x0020_0000 == 0 && super::field(
        w,
        10,
        3,
    ) == 2) && (w & 0x3B20_0400 == 0x3820_0400 ==> w & 0x3B00_0000 == 0x3800_0000 && w & 0x0020_0000
        != 0 && super::field(w, 10, 3) != 2 && super::field(w, 10, 3) != 0) && (w & 0x3B00_0000
        == 0x3800_0000 ==> w & 0x3F00_0000 != 0x0800_0000 && w & 0xBF00_0000 != 0x0C00_0000 && w
        & 0x3B00_0000 != 0x1800_0000 && w & 0x3B00_0000 != 0x3900_0000)) by (bit_vector);
    if w & 0x0A00_0000 == 0x0800_0000 {
        lemma_memory(w, pc);
    }
}

/// An instruction that hands out a stack address is known: `add` and `sub` of
/// 64 bits with an immediate, from `sp` or `x29` into another register
/// (`mov xD, sp` is one), but for the frame's set-up `add x29, sp, #imm`.
pub proof fn stack_addresses_are_known(d: u32, imm: u32, down: u32, far: u32, pc: u64)
    requires
        d < 31,
        imm < 0x1000,
        down < 2,
        far < 2,
    ensures
        super::class_of(
            0x9100_03A0 | (down << 30) | (far << 22) | (imm << 10) | d,
            pc,
        ) == Class::StackAddr,
        d != 29 ==> super::class_of(
            0x9100_03E0 | (down << 30) | (far << 22) | (imm << 10) | d,
            pc,
        ) == Class::StackAddr,
        super::class_of(0x9100_03FD | (far << 22) | (imm << 10), pc) == Class::Other,
{
    lemma_from_stack(
        0x9100_03A0 | (down << 30) | (far << 22) | (imm << 10) | d,
        d,
        29,
        imm,
        down,
        far,
        pc,
    );
    lemma_from_stack(
        0x9100_03E0 | (down << 30) | (far << 22) | (imm << 10) | d,
        d,
        31,
        imm,
        down,
        far,
        pc,
    );
    lemma_from_stack(0x9100_03FD | (far << 22) | (imm << 10), 29, 31, imm, 0, far, pc);
    assert(29u32 << 5 == 0x3A0 && 31u32 << 5 == 0x3E0) by (bit_vector);
    assert(0x9100_03A0 | (down << 30) | (far << 22) | (imm << 10) | d == 0x9100_0000 | (29u32 << 5)
        | (down << 30) | (far << 22) | (imm << 10) | d && 0x9100_03E0 | (down << 30) | (far << 22)
        | (imm << 10) | d == 0x9100_0000 | (31u32 << 5) | (down << 30) | (far << 22) | (imm << 10)
        | d && 0x9100_03FD | (far << 22) | (imm << 10) == 0x9100_0000 | (31u32 << 5) | (0u32 << 30)
        | (far << 22) | (imm << 10) | 29) by (bit_vector);
}

proof fn lemma_from_stack(w: u32, d: u32, n: u32, imm: u32, down: u32, far: u32, pc: u64)
    requires
        d < 31,
        n == 29 || n == 31,
        imm < 0x1000,
        down < 2,
        far < 2,
    ensures
        w == 0x9100_0000 | (n << 5) | (down << 30) | (far << 22) | (imm << 10) | d
            ==> super::class_of(w, pc) == (if n == 31 && d == 29 {
            Class::Other
        } else {
            Class::StackAddr
        }),
{
    reveal(super::class_of);
    super::lemma_masks(w);
    if w == 0x9100_0000 | (n << 5) | (down << 30) | (far << 22) | (imm << 10) | d {
        assert(w & 0x1F80_0000 == 0x1100_0000 && w >> 31 != 0 && super::field(w, 0, 0x1F) == d
            && super::field(w, 5, 0x1F) == n && w & 0x0A00_0000 != 0x0800_0000 && w & 0xFFFF_FFE0
            != 0xD53B_E040 && w & 0xFFFF_FFE0 != 0xD53B_E020 && w & 0xFC00_0000 != 0x1400_0000 && w
            & 0xFC00_0000 != 0x9400_0000 && w & 0xFF00_0000 != 0x5400_0000 && w & 0x7E00_0000
            != 0x3400_0000 && w & 0x7E00_0000 != 0x3600_0000 && w & 0xFFFF_FC1F != 0xD61F_0000 && w
            & 0xFFFF_FC1F != 0xD63F_0000 && w & 0xFFFF_FC1F != 0xD65F_0000 && w & 0xFFE0_001F
            != 0xD400_0001 && w & 0x1FE0_03E0 != 0x0B20_03E0) by (bit_vector)
            requires
                d < 31,
                n == 29 || n == 31,
                imm < 0x1000,
                down < 2,
                far < 2,
                w == 0x9100_0000 | (n << 5) | (down << 30) | (far << 22) | (imm << 10) | d,
        ;
    }
}

/// The opposite of a condition is the other of its pair: `eq` and `ne`, `lt` and
/// `ge`, and so on.
pub proof fn opposite_conditions_are_pairs(c: u8)
    requires
        c < 14,
    ensures
        c % 2 == 0 ==> super::flipped(c) == c + 1,
        c % 2 == 1 ==> super::flipped(c) == c - 1,
{
}

} // verus!
