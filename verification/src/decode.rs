//! Decoder for the handful of `AArch64` instruction classes the rewriter
//! cares about. Everything else is `Other` and left untouched.

use vstd::prelude::*;

pub mod laws;

verus! {

#[derive(Debug, Clone, Copy, PartialEq, Eq, Structural)]
pub enum Class {
    /// `b target`
    B { target: u64 },
    /// `bl target`
    Bl { target: u64 },
    /// `b.cond target`; `cond` is the 4-bit condition code
    BCond { cond: u8, target: u64 },
    /// `cbz`/`cbnz` `rt, target`
    Cbz { sf: bool, rt: u8, nonzero: bool, target: u64 },
    /// `tbz`/`tbnz` `rt, #bit, target`
    Tbz { rt: u8, bit: u8, nonzero: bool, target: u64 },
    Br { rn: u8 },
    Blr { rn: u8 },
    Ret,
    /// `mrs xN, cntvct_el0` or `cntpct_el0`: the CPU's counter, a clock
    /// no interposer sees
    Counter { rt: u8 },
    /// A load or store that can be displaced into a stub and re-executed
    Mem { base: u8 },
    /// `ldxr`-family load; opens an exclusive span
    ExclusiveLoad,
    /// `stxr`-family store; closes an exclusive span
    ExclusiveStore,
    /// `add/sub xN, sp|x29, ...` or `mov xN, sp`: the function hands out a
    /// stack address
    StackAddr,
    Svc,
    Other,
}

pub const SP: u8 = 31;

pub const FP: u8 = 29;

/// The bits of `w` from bit `lo` up that `mask` selects
pub open spec fn field(w: u32, lo: u32, mask: u32) -> u32 {
    (w >> lo) & mask
}

/// Bit `at` of `w`
pub open spec fn bit(w: u32, at: u32) -> bool {
    field(w, at, 1) == 1
}

/// The register number in the five bits of `w` from bit `lo` up
pub open spec fn register(w: u32, lo: u32) -> u8 {
    field(w, lo, 0x1F) as u8
}

/// An immediate of which `half` is the sign bit
pub open spec fn signed(imm: int, half: int) -> int {
    if imm < half {
        imm
    } else {
        imm - 2 * half
    }
}

/// Where a branch at `pc` leads whose word offset is the immediate `imm`
/// with sign bit `half`; addresses wrap around
pub open spec fn branch_target(pc: u64, imm: int, half: int) -> u64 {
    ((pc + 4 * signed(imm, half)) % 0x1_0000_0000_0000_0000) as u64
}

/// The signed 26, 19 and 14 bit word offsets a branch instruction holds
pub open spec fn target26(w: u32, pc: u64) -> u64 {
    branch_target(pc, field(w, 0, 0x3FF_FFFF) as int, 0x200_0000)
}

pub open spec fn target19(w: u32, pc: u64) -> u64 {
    branch_target(pc, field(w, 5, 0x7_FFFF) as int, 0x4_0000)
}

pub open spec fn target14(w: u32, pc: u64) -> u64 {
    branch_target(pc, field(w, 5, 0x3FFF) as int, 0x2000)
}

/// What the bits of `w`, an instruction at `pc`, say: the encoding tables
/// of the architecture, first the classes that end a basic block.
#[verifier::opaque]
pub open spec fn class_of(w: u32, pc: u64) -> Class {
    // mrs xt, cntvct_el0 (op2 = 2) and cntpct_el0 (op2 = 1)
    if field(w, 5, 0x7FF_FFFF) == 0x6A9_DF02 || field(w, 5, 0x7FF_FFFF) == 0x6A9_DF01 {
        Class::Counter { rt: register(w, 0) }
    } else if field(w, 26, 0x3F) == 0b000101 {
        Class::B { target: target26(w, pc) }
    } else if field(w, 26, 0x3F) == 0b100101 {
        Class::Bl { target: target26(w, pc) }
    } else if field(w, 24, 0xFF) == 0b01010100 {
        // Conditions 14 and 15 both mean "always"
        if field(w, 0, 0xF) >= 14 {
            Class::B { target: target19(w, pc) }
        } else {
            Class::BCond { cond: field(w, 0, 0xF) as u8, target: target19(w, pc) }
        }
    } else if field(w, 25, 0x3F) == 0b011010 {
        Class::Cbz {
            sf: bit(w, 31),
            rt: register(w, 0),
            nonzero: bit(w, 24),
            target: target19(w, pc),
        }
    } else if field(w, 25, 0x3F) == 0b011011 {
        Class::Tbz {
            rt: register(w, 0),
            bit: (32 * field(w, 31, 1) + field(w, 19, 0x1F)) as u8,
            nonzero: bit(w, 24),
            target: target14(w, pc),
        }
    } else if field(w, 10, 0x3F_FFFF) == 0x35_87C0 && field(w, 0, 0x1F) == 0 {
        Class::Br { rn: register(w, 5) }
    } else if field(w, 10, 0x3F_FFFF) == 0x35_8FC0 && field(w, 0, 0x1F) == 0 {
        Class::Blr { rn: register(w, 5) }
    } else if field(w, 10, 0x3F_FFFF) == 0x35_97C0 && field(w, 0, 0x1F) == 0 {
        Class::Ret
    } else if field(w, 21, 0x7FF) == 0b11010100000 && field(w, 0, 0x1F) == 1 {
        Class::Svc
    } else if bit(w, 27) && !bit(w, 25) {
        mem_class_of(w)
    } else if hands_out_stack(w) {
        Class::StackAddr
    } else {
        Class::Other
    }
}

/// A 64-bit `add` or `sub` into `xN` from `sp` or `x29` (immediate), other
/// than the frame set-up `add x29, sp, #imm`, or from `sp` (extended
/// register)
pub open spec fn hands_out_stack(w: u32) -> bool {
    &&& bit(w, 31)
    &&& register(w, 0) != SP
    &&& {
        ||| {
            &&& field(w, 23, 0x3F) == 0b100010
            &&& register(w, 5) == FP || (register(w, 5) == SP && register(w, 0) != FP)
        }
        ||| field(w, 24, 0x1F) == 0b01011 && field(w, 21, 7) == 1 && register(w, 5) == SP
    }
}

/// The class of `w` among the loads and stores
pub open spec fn mem_class_of(w: u32) -> Class {
    let mem = Class::Mem { base: register(w, 5) };
    if field(w, 27, 7) == 0b011 && field(w, 24, 3) == 0 {
        // Load register (literal): pc-relative, not shared memory
        Class::Other
    } else if field(w, 24, 0x3F) == 0b001000 {
        // Exclusive, ordered, compare-and-swap; o2, L and o1 are bits 23 to 21
        if bit(w, 23) || (!bit(w, 31) && bit(w, 21)) {
            mem
        } else if bit(w, 22) {
            Class::ExclusiveLoad
        } else {
            Class::ExclusiveStore
        }
    } else if field(w, 24, 0x3F) == 0b001100 && !bit(w, 31) {
        // Advanced SIMD structures
        mem
    } else if field(w, 27, 7) == 0b111 && field(w, 24, 3) == 1 {
        // Unsigned immediate, but for prfm
        if field(w, 22, 0x3FF) == 0b1111100110 {
            Class::Other
        } else {
            mem
        }
    } else if field(w, 27, 7) == 0b111 && field(w, 24, 3) == 0 {
        let prefetch = field(w, 22, 0x3FF) == 0b1111100010;
        if field(w, 10, 3) == 0b10 {
            // Register offset but for prfm; without bit 21, unprivileged
            if bit(w, 21) && !prefetch {
                mem
            } else {
                Class::Other
            }
        } else if field(w, 10, 3) == 0b00 {
            // Atomics with bit 21; without, unscaled but for prfum
            if !bit(w, 21) && prefetch {
                Class::Other
            } else {
                mem
            }
        } else if bit(w, 21) {
            // Pointer authentication and reserved
            Class::Other
        } else {
            // Pre- and post-indexed
            mem
        }
    } else if field(w, 27, 7) == 0b101 && !bit(w, 25) {
        // Pairs
        mem
    } else {
        Class::Other
    }
}

/// The masks the decoder compares under select the fields of the tables.
proof fn lemma_masks(w: u32)
    by (bit_vector)
    ensures
        (w & 0xFFFF_FFE0 == 0xD53B_E040) == (field(w, 5, 0x7FF_FFFF) == 0x6A9_DF02),
        (w & 0xFFFF_FFE0 == 0xD53B_E020) == (field(w, 5, 0x7FF_FFFF) == 0x6A9_DF01),
        (w & 0xFC00_0000 == 0x1400_0000) == (field(w, 26, 0x3F) == 0b000101),
        (w & 0xFC00_0000 == 0x9400_0000) == (field(w, 26, 0x3F) == 0b100101),
        (w & 0xFF00_0000 == 0x5400_0000) == (field(w, 24, 0xFF) == 0b01010100),
        (w & 0x7E00_0000 == 0x3400_0000) == (field(w, 25, 0x3F) == 0b011010),
        (w & 0x7E00_0000 == 0x3600_0000) == (field(w, 25, 0x3F) == 0b011011),
        (w & 0xFFFF_FC1F == 0xD61F_0000) == (field(w, 10, 0x3F_FFFF) == 0x35_87C0 && field(w, 0, 0x1F) == 0),
        (w & 0xFFFF_FC1F == 0xD63F_0000) == (field(w, 10, 0x3F_FFFF) == 0x35_8FC0 && field(w, 0, 0x1F) == 0),
        (w & 0xFFFF_FC1F == 0xD65F_0000) == (field(w, 10, 0x3F_FFFF) == 0x35_97C0 && field(w, 0, 0x1F) == 0),
        (w & 0xFFE0_001F == 0xD400_0001) == (field(w, 21, 0x7FF) == 0b11010100000 && field(w, 0, 0x1F) == 1),
        (w & 0x0A00_0000 == 0x0800_0000) == (bit(w, 27) && !bit(w, 25)),
        (w & 0x1F80_0000 == 0x1100_0000) == (field(w, 23, 0x3F) == 0b100010),
        (w & 0x1FE0_03E0 == 0x0B20_03E0) == (field(w, 24, 0x1F) == 0b01011 && field(w, 21, 7) == 1
            && field(w, 5, 0x1F) == 31),
        (w >> 31 != 0) == bit(w, 31),
        (w & 0x0100_0000 != 0) == bit(w, 24),
        ((w >> 31) << 5) | ((w >> 19) & 0x1F) == 32 * field(w, 31, 1) + field(w, 19, 0x1F),
        32 * field(w, 31, 1) + field(w, 19, 0x1F) < 64,
        w & 0x03FF_FFFF == field(w, 0, 0x3FF_FFFF),
        w & 0x1F == field(w, 0, 0x1F),
        w & 0xF == field(w, 0, 0xF),
        field(w, 0, 0x1F) < 32,
        field(w, 5, 0x1F) < 32,
        field(w, 0, 0xF) < 16,
        field(w, 0, 0x3FF_FFFF) < 0x400_0000,
        field(w, 5, 0x7_FFFF) < 0x8_0000,
        field(w, 5, 0x3FFF) < 0x4000,
{
}

proof fn lemma_mem_masks(w: u32)
    by (bit_vector)
    ensures
        (w & 0x3B00_0000 == 0x1800_0000) == (field(w, 27, 7) == 0b011 && field(w, 24, 3) == 0),
        (w & 0x3F00_0000 == 0x0800_0000) == (field(w, 24, 0x3F) == 0b001000),
        (w & 0x0080_0000 != 0) == bit(w, 23),
        (w & 0x0040_0000 != 0) == bit(w, 22),
        (w & 0x0020_0000 != 0) == bit(w, 21),
        (w >> 31 == 0) == !bit(w, 31),
        (w & 0xBF00_0000 == 0x0C00_0000) == (field(w, 24, 0x3F) == 0b001100 && !bit(w, 31)),
        (w & 0x3B00_0000 == 0x3900_0000) == (field(w, 27, 7) == 0b111 && field(w, 24, 3) == 1),
        (w & 0xFFC0_0000 == 0xF980_0000) == (field(w, 22, 0x3FF) == 0b1111100110),
        (w & 0x3B00_0000 == 0x3800_0000) == (field(w, 27, 7) == 0b111 && field(w, 24, 3) == 0),
        (w & 0xFFE0_0C00 == 0xF880_0000) == (field(w, 22, 0x3FF) == 0b1111100010 && !bit(w, 21)
            && field(w, 10, 3) == 0),
        (w & 0xFFE0_0C00 == 0xF8A0_0800) == (field(w, 22, 0x3FF) == 0b1111100010 && bit(w, 21)
            && field(w, 10, 3) == 2),
        (w & 0x3A00_0000 == 0x2800_0000) == (field(w, 27, 7) == 0b101 && !bit(w, 25)),
{
}

/// `pc` moved by the signed word offset `imm`, whose sign bit is `half`
fn rel(pc: u64, imm: u32, half: u32) -> (r: u64)
    requires
        0 < half <= 0x4000_0000,
        imm < 2 * half,
    ensures
        r == branch_target(pc, imm as int, half as int),
{
    if imm < half {
        pc.wrapping_add(imm as u64 * 4)
    } else {
        pc.wrapping_sub((2 * half as u64 - imm as u64) * 4)
    }
}

pub fn decode(w: u32, pc: u64) -> (r: Class)
    ensures
        r == class_of(w, pc),
{
    proof {
        lemma_masks(w);
        reveal(class_of);
    }
    if w & 0xFFFF_FFE0 == 0xD53B_E040 || w & 0xFFFF_FFE0 == 0xD53B_E020 {
        return Class::Counter { rt: (w & 0x1F) as u8 };
    }
    // Unconditional immediate branches
    if w & 0xFC00_0000 == 0x1400_0000 {
        return Class::B { target: rel(pc, w & 0x03FF_FFFF, 0x200_0000) };
    }
    if w & 0xFC00_0000 == 0x9400_0000 {
        return Class::Bl { target: rel(pc, w & 0x03FF_FFFF, 0x200_0000) };
    }
    // b.cond and bc.cond
    if w & 0xFF00_0000 == 0x5400_0000 {
        let cond: u8 = (w & 0xF) as u8;
        let target: u64 = rel(pc, (w >> 5) & 0x7FFFF, 0x4_0000);
        return if cond >= 0b1110 {
            Class::B { target }
        } else {
            Class::BCond { cond, target }
        };
    }
    if w & 0x7E00_0000 == 0x3400_0000 {
        return Class::Cbz {
            sf: w >> 31 != 0,
            rt: (w & 0x1F) as u8,
            nonzero: w & 0x0100_0000 != 0,
            target: rel(pc, (w >> 5) & 0x7FFFF, 0x4_0000),
        };
    }
    if w & 0x7E00_0000 == 0x3600_0000 {
        return Class::Tbz {
            rt: (w & 0x1F) as u8,
            bit: (((w >> 31) << 5) | ((w >> 19) & 0x1F)) as u8,
            nonzero: w & 0x0100_0000 != 0,
            target: rel(pc, (w >> 5) & 0x3FFF, 0x2000),
        };
    }
    if w & 0xFFFF_FC1F == 0xD61F_0000 {
        return Class::Br { rn: ((w >> 5) & 0x1F) as u8 };
    }
    if w & 0xFFFF_FC1F == 0xD63F_0000 {
        return Class::Blr { rn: ((w >> 5) & 0x1F) as u8 };
    }
    if w & 0xFFFF_FC1F == 0xD65F_0000 {
        return Class::Ret;
    }
    if w & 0xFFE0_001F == 0xD400_0001 {
        return Class::Svc;
    }
    // Loads and stores: op0 = x1x0 at bits 28..25
    if w & 0x0A00_0000 == 0x0800_0000 {
        return decode_mem(w);
    }
    // Stack address materialization
    let rd: u8 = (w & 0x1F) as u8;
    let rn: u8 = ((w >> 5) & 0x1F) as u8;
    let add_sub_imm64 = w & 0x1F80_0000 == 0x1100_0000 && w >> 31 != 0;
    if add_sub_imm64 && rd != SP && (rn == SP || rn == FP) && !(rn == SP && rd == FP) {
        return Class::StackAddr;
    }
    // add/sub (extended register) with sp as the first operand
    if w & 0x1FE0_03E0 == 0x0B20_03E0 && w >> 31 != 0 && rd != SP {
        return Class::StackAddr;
    }
    Class::Other
}

fn decode_mem(w: u32) -> (r: Class)
    ensures
        r == mem_class_of(w),
{
    proof {
        lemma_mem_masks(w);
    }
    let base: u8 = ((w >> 5) & 0x1F) as u8;
    // Load register (literal): pc-relative, not shared memory
    if w & 0x3B00_0000 == 0x1800_0000 {
        return Class::Other;
    }
    // Load/store exclusive, ordered, compare-and-swap: bits 29..24 = 001000
    if w & 0x3F00_0000 == 0x0800_0000 {
        let o2 = w & 0x0080_0000 != 0;
        let l = w & 0x0040_0000 != 0;
        let o1 = w & 0x0020_0000 != 0;
        if !o2 {
            // casp has bit 31 clear and o1 set; everything else is exclusive
            if w >> 31 == 0 && o1 {
                return Class::Mem { base };
            }
            return if l {
                Class::ExclusiveLoad
            } else {
                Class::ExclusiveStore
            };
        }
        // ldar/stlr (o1 clear) and cas (o1 set)
        return Class::Mem { base };
    }
    // Advanced SIMD load/store structures: bits 29..24 = 00110x
    if w & 0xBF00_0000 == 0x0C00_0000 {
        return Class::Mem { base };
    }
    // Load/store register, unsigned immediate
    if w & 0x3B00_0000 == 0x3900_0000 {
        if w & 0xFFC0_0000 == 0xF980_0000 {
            return Class::Other;  // prfm
        }
        return Class::Mem { base };
    }
    // Load/store register: unscaled, post, pre, register offset, atomics
    if w & 0x3B00_0000 == 0x3800_0000 {
        let op21 = w & 0x0020_0000 != 0;
        let op10: u32 = (w >> 10) & 3;
        if !op21 {
            if op10 == 0b10 {
                return Class::Other;  // unprivileged ldtr/sttr
            }
            if w & 0xFFE0_0C00 == 0xF880_0000 {
                return Class::Other;  // prfum
            }
            return Class::Mem { base };
        }
        if op10 == 0b10 {
            if w & 0xFFE0_0C00 == 0xF8A0_0800 {
                return Class::Other;  // prfm (register)
            }
            return Class::Mem { base };
        }
        if op10 == 0b00 {
            return Class::Mem { base };  // LSE atomics, ldapr
        }
        return Class::Other;  // pointer-auth ldraa/ldrab and reserved
    }
    // Load/store pair (no-allocate, post, offset, pre)
    if w & 0x3A00_0000 == 0x2800_0000 {
        return Class::Mem { base };
    }
    Class::Other
}

/// The condition that holds exactly where `cond` does not: conditions come
/// in pairs that differ in the low bit
pub open spec fn flipped(cond: u8) -> u8 {
    if cond % 2 == 0 {
        (cond + 1) as u8
    } else {
        (cond - 1) as u8
    }
}

/// Condition code with the sense flipped
pub fn invert_cond(cond: u8) -> (r: u8)
    ensures
        r == flipped(cond),
{
    assert(cond ^ 1 == (if cond % 2 == 0 {
        cond + 1
    } else {
        cond - 1
    })) by (bit_vector);
    cond ^ 1
}

/// Flipping a condition twice gives it back, and once never does.
pub proof fn flipping_twice_is_nothing(cond: u8)
    ensures
        flipped(flipped(cond)) == cond,
        flipped(cond) != cond,
        cond < 14 ==> flipped(cond) < 14,
{
}

} // verus!
