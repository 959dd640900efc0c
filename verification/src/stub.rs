//! `AArch64` encoders for the instructions the stubs are built from.

use vstd::prelude::*;
use crate::decode;
use crate::decode::Class;

verus! {

/// `stp x0, x1, [sp, #-16]!`
pub const STP_X0_X1_PRE: u32 = 0xA9BF_07E0;

/// `ldp x0, x1, [sp], #16`
pub const LDP_X0_X1_POST: u32 = 0xA8C1_07E0;

/// `str x30, [sp, #-16]!`
pub const STR_X30_PRE: u32 = 0xF81F_0FFE;

/// `ldr x30, [sp], #16`
pub const LDR_X30_POST: u32 = 0xF841_07FE;

/// `sub x1, x1, #1`
pub const SUB_X1_X1_1: u32 = 0xD100_0421;

pub const BLR_X0: u32 = 0xD63F_0000;

pub const BLR_X1: u32 = 0xD63F_0020;

pub const RET: u32 = 0xD65F_03C0;

/// How far a `b` reaches, in bytes
pub const B_RANGE: i64 = 0x800_0000;

/// The signed distance from `pc` to `target`, the shorter way around the
/// address space
pub open spec fn distance(pc: u64, target: u64) -> int {
    let d = target - pc;
    if d >= 0x8000_0000_0000_0000 {
        d - 0x1_0000_0000_0000_0000
    } else if d < -0x8000_0000_0000_0000 {
        d + 0x1_0000_0000_0000_0000
    } else {
        d
    }
}

/// Whether a byte offset is a word offset of at most `half` words backwards
/// and under `half` words forwards
pub open spec fn fits(off: int, half: int) -> bool {
    &&& off % 4 == 0
    &&& -4 * half <= off < 4 * half
}

/// The immediate that holds a byte offset that fits: its word offset modulo
/// twice `half`
pub open spec fn word_offset(off: int, half: int) -> u32 {
    ((off / 4) % (2 * half)) as u32
}

proof fn lemma_word_offset(off: int, half: int)
    requires
        half == 0x200_0000 || half == 0x4_0000 || half == 0x2000,
    ensures
        fits(off, half) ==> {
            &&& word_offset(off, half) == (if off < 0 {
                off / 4 + 2 * half
            } else {
                off / 4
            })
            &&& decode::signed(word_offset(off, half) as int, half) == off / 4
        },
{
    if half == 0x200_0000 {
        assert((off / 4) % (2 * half) == (off / 4) % 0x400_0000);
    } else if half == 0x4_0000 {
        assert((off / 4) % (2 * half) == (off / 4) % 0x8_0000);
    } else {
        assert((off / 4) % (2 * half) == (off / 4) % 0x4000);
    }
}

/// The word offset from `pc` to `target` as an immediate, if it fits
fn offset(pc: u64, target: u64, half: u64) -> (r: Option<u32>)
    requires
        0 < half <= 0x200_0000,
        half == 0x200_0000 || half == 0x4_0000 || half == 0x2000,
    ensures
        r == (if fits(distance(pc, target), half as int) {
            Some(word_offset(distance(pc, target), half as int))
        } else {
            None
        }),
{
    let d: u64 = target.wrapping_sub(pc);
    proof {
        lemma_word_offset(distance(pc, target), half as int);
    }
    if d % 4 == 0 && d < 4 * half {
        Some((d / 4) as u32)
    } else if d % 4 == 0 && d >= u64::MAX - (4 * half - 1) {
        Some((2 * half - (u64::MAX - d + 1) / 4) as u32)
    } else {
        None
    }
}

/// `b` from `pc` to `target`
pub fn b(pc: u64, target: u64) -> (r: Option<u32>)
    ensures
        r == b_word(pc, target),
{
    match offset(pc, target, 0x200_0000) {
        Some(imm) => Some(0x1400_0000 | imm),
        None => None,
    }
}

pub open spec fn b_word(pc: u64, target: u64) -> Option<u32> {
    if fits(distance(pc, target), 0x200_0000) {
        Some(0x1400_0000 | word_offset(distance(pc, target), 0x200_0000))
    } else {
        None
    }
}

pub fn bl(pc: u64, target: u64) -> (r: Option<u32>)
    ensures
        r == bl_word(pc, target),
{
    match b(pc, target) {
        Some(w) => Some(w | 0x8000_0000),
        None => None,
    }
}

pub open spec fn bl_word(pc: u64, target: u64) -> Option<u32> {
    match b_word(pc, target) {
        Some(w) => Some(w | 0x8000_0000),
        None => None,
    }
}

pub fn b_cond(cond: u8, pc: u64, target: u64) -> (r: Option<u32>)
    ensures
        r == b_cond_word(cond, pc, target),
{
    match offset(pc, target, 0x4_0000) {
        Some(imm) => Some(0x5400_0000 | (imm << 5) | cond as u32),
        None => None,
    }
}

pub open spec fn b_cond_word(cond: u8, pc: u64, target: u64) -> Option<u32> {
    if fits(distance(pc, target), 0x4_0000) {
        Some(0x5400_0000 | (word_offset(distance(pc, target), 0x4_0000) << 5) | cond as u32)
    } else {
        None
    }
}

pub open spec fn flag(on: bool) -> u32 {
    if on {
        1
    } else {
        0
    }
}

fn flag_bit(on: bool) -> (r: u32)
    ensures
        r == flag(on),
{
    if on {
        1
    } else {
        0
    }
}

pub fn cbz(sf: bool, rt: u8, nonzero: bool, pc: u64, target: u64) -> (r: Option<u32>)
    ensures
        r == cbz_word(sf, rt, nonzero, pc, target),
{
    match offset(pc, target, 0x4_0000) {
        Some(imm) => Some(
            0x3400_0000 | (flag_bit(sf) << 31) | (flag_bit(nonzero) << 24) | (imm << 5) | rt as u32,
        ),
        None => None,
    }
}

pub open spec fn cbz_word(sf: bool, rt: u8, nonzero: bool, pc: u64, target: u64) -> Option<u32> {
    if fits(distance(pc, target), 0x4_0000) {
        Some(
            0x3400_0000 | (flag(sf) << 31) | (flag(nonzero) << 24) | (word_offset(
                distance(pc, target),
                0x4_0000,
            ) << 5) | rt as u32,
        )
    } else {
        None
    }
}

pub fn tbz(rt: u8, bit: u8, nonzero: bool, pc: u64, target: u64) -> (r: Option<u32>)
    ensures
        r == tbz_word(rt, bit, nonzero, pc, target),
{
    match offset(pc, target, 0x2000) {
        Some(imm) => Some(
            0x3600_0000 | (((bit >> 5) as u32) << 31) | (flag_bit(nonzero) << 24) | (((bit & 31)
                as u32) << 19) | (imm << 5) | rt as u32,
        ),
        None => None,
    }
}

pub open spec fn tbz_word(rt: u8, bit: u8, nonzero: bool, pc: u64, target: u64) -> Option<u32> {
    if fits(distance(pc, target), 0x2000) {
        Some(
            0x3600_0000 | (((bit >> 5) as u32) << 31) | (flag(nonzero) << 24) | (((bit & 31)
                as u32) << 19) | (word_offset(distance(pc, target), 0x2000) << 5) | rt as u32,
        )
    } else {
        None
    }
}

pub fn br(rn: u8) -> (r: u32)
    ensures
        r == 0xD61F_0000 | ((rn as u32) << 5),
{
    0xD61F_0000 | ((rn as u32) << 5)
}

/// How many 4 KB pages `target` lies ahead of `pc`
pub open spec fn pages(pc: u64, target: u64) -> int {
    target / 4096 - pc / 4096
}

/// `adrp xd, target` from `pc`: the page of `target`, within 4 GB
pub fn adrp(rd: u8, pc: u64, target: u64) -> (r: Option<u32>)
    ensures
        r == adrp_word(rd, pc, target),
{
    let to: u64 = target / 4096;
    let from: u64 = pc / 4096;
    let imm: u32 = if to >= from && to - from < 0x10_0000 {
        (to - from) as u32
    } else if to < from && from - to <= 0x10_0000 {
        (0x20_0000 - (from - to)) as u32
    } else {
        return None;
    };
    Some(0x9000_0000 | ((imm % 4) << 29) | ((imm / 4) << 5) | rd as u32)
}

pub open spec fn adrp_word(rd: u8, pc: u64, target: u64) -> Option<u32> {
    if -0x10_0000 <= pages(pc, target) < 0x10_0000 {
        let imm = pages(pc, target) % 0x20_0000;
        Some(0x9000_0000 | (((imm % 4) as u32) << 29) | (((imm / 4) as u32) << 5) | rd as u32)
    } else {
        None
    }
}

/// `add xd, xn, #imm12`
pub fn add_imm(rd: u8, rn: u8, imm: u32) -> (r: u32)
    requires
        imm < 0x1000,
    ensures
        r == 0x9100_0000 | (imm << 10) | ((rn as u32) << 5) | rd as u32,
{
    0x9100_0000 | (imm << 10) | ((rn as u32) << 5) | rd as u32
}

/// `movz xd, #imm16, lsl #shift` for a value with one non-zero 16-bit chunk
pub fn movz_x(rd: u8, value: u64) -> (r: Option<u32>)
    ensures
        r == movz_word(rd, value),
{
    let (shift, imm): (u32, u64) = if value <= 0xFFFF {
        (0, value)
    } else if value % 0x1_0000 != 0 {
        return None;
    } else if value / 0x1_0000 <= 0xFFFF {
        (1, value / 0x1_0000)
    } else if value % 0x1_0000_0000 != 0 {
        return None;
    } else if value / 0x1_0000_0000 <= 0xFFFF {
        (2, value / 0x1_0000_0000)
    } else if value % 0x1_0000_0000_0000 != 0 {
        return None;
    } else {
        (3, value / 0x1_0000_0000_0000)
    };
    Some(0xD280_0000 | (shift << 21) | ((imm as u32) << 5) | rd as u32)
}

/// Chunk `k` of the four 16-bit chunks of `value` is `imm` and the others
/// are zero
pub open spec fn only_chunk(value: u64, k: int, imm: int) -> bool {
    &&& 0 <= imm <= 0xFFFF
    &&& value == imm * (if k == 0 {
        1int
    } else if k == 1 {
        0x1_0000
    } else if k == 2 {
        0x1_0000_0000
    } else {
        0x1_0000_0000_0000
    })
}

/// The one `movz` that loads `value`, for a value whose chunks but one are
/// zero; zero itself is the low chunk's
pub open spec fn movz_word(rd: u8, value: u64) -> Option<u32> {
    let word = |k: int, imm: int| 0xD280_0000u32 | ((k as u32) << 21) | ((imm as u32) << 5) | rd as u32;
    if only_chunk(value, 0, value as int) {
        Some(word(0, value as int))
    } else if only_chunk(value, 1, value as int / 0x1_0000) {
        Some(word(1, value as int / 0x1_0000))
    } else if only_chunk(value, 2, value as int / 0x1_0000_0000) {
        Some(word(2, value as int / 0x1_0000_0000))
    } else if only_chunk(value, 3, value as int / 0x1_0000_0000_0000) {
        Some(word(3, value as int / 0x1_0000_0000_0000))
    } else {
        None
    }
}

/// `ldr xt, [xn, #imm]`, `imm` a multiple of 8 below 32 KB
pub fn ldr_x_imm(rt: u8, rn: u8, imm: u32) -> (r: u32)
    requires
        imm % 8 == 0,
        imm < 0x8000,
    ensures
        r == 0xF940_0000 | ((imm / 8) << 10) | ((rn as u32) << 5) | rt as u32,
{
    0xF940_0000 | ((imm / 8) << 10) | ((rn as u32) << 5) | rt as u32
}

/// `str xt, [xn, #imm]`, `imm` a multiple of 8 below 32 KB
pub fn str_x_imm(rt: u8, rn: u8, imm: u32) -> (r: u32)
    requires
        imm % 8 == 0,
        imm < 0x8000,
    ensures
        r == 0xF900_0000 | ((imm / 8) << 10) | ((rn as u32) << 5) | rt as u32,
{
    0xF900_0000 | ((imm / 8) << 10) | ((rn as u32) << 5) | rt as u32
}

/// A word offset that fits leads from `pc` to `target` again.
proof fn lemma_offset_leads_back(pc: u64, target: u64, half: int)
    requires
        fits(distance(pc, target), half),
        half == 0x200_0000 || half == 0x4_0000 || half == 0x2000,
    ensures
        decode::branch_target(pc, word_offset(distance(pc, target), half) as int, half) == target,
        word_offset(distance(pc, target), half) < 2 * half,
{
    lemma_word_offset(distance(pc, target), half);
}

proof fn lemma_branch_fields(imm26: u32, imm19: u32, imm14: u32, cond: u32, rt: u32, bit: u8, sf: u32, nz: u32)
    by (bit_vector)
    requires
        imm26 < 0x400_0000,
        imm19 < 0x8_0000,
        imm14 < 0x4000,
        cond < 14,
        rt < 32,
        bit < 64,
        sf < 2,
        nz < 2,
    ensures
        decode::field(0x1400_0000 | imm26, 26, 0x3F) == 0b000101,
        decode::field(0x1400_0000 | imm26, 0, 0x3FF_FFFF) == imm26,
        decode::field(0x1400_0000 | imm26, 5, 0x7FF_FFFF) < 0x6A9_DF01,
        decode::field(0x1400_0000 | imm26 | 0x8000_0000, 26, 0x3F) == 0b100101,
        decode::field(0x1400_0000 | imm26 | 0x8000_0000, 0, 0x3FF_FFFF) == imm26,
        decode::field(0x1400_0000 | imm26 | 0x8000_0000, 5, 0x7FF_FFFF) < 0x6A9_DF01,
        decode::field(0x5400_0000 | (imm19 << 5) | cond, 24, 0xFF) == 0b01010100,
        decode::field(0x5400_0000 | (imm19 << 5) | cond, 26, 0x3F) == 0b010101,
        decode::field(0x5400_0000 | (imm19 << 5) | cond, 5, 0x7_FFFF) == imm19,
        decode::field(0x5400_0000 | (imm19 << 5) | cond, 0, 0xF) == cond,
        decode::field(0x5400_0000 | (imm19 << 5) | cond, 5, 0x7FF_FFFF) < 0x6A9_DF01,
        decode::field(0x3400_0000 | (sf << 31) | (nz << 24) | (imm19 << 5) | rt, 25, 0x3F) == 0b011010,
        decode::field(0x3400_0000 | (sf << 31) | (nz << 24) | (imm19 << 5) | rt, 24, 0xFF) != 0b01010100,
        decode::field(0x3400_0000 | (sf << 31) | (nz << 24) | (imm19 << 5) | rt, 26, 0x1F) == 0b01101,
        decode::field(0x3400_0000 | (sf << 31) | (nz << 24) | (imm19 << 5) | rt, 26, 0x3F) & 0x1F == 0b01101,
        decode::field(0x3400_0000 | (sf << 31) | (nz << 24) | (imm19 << 5) | rt, 31, 1) == sf,
        decode::field(0x3400_0000 | (sf << 31) | (nz << 24) | (imm19 << 5) | rt, 24, 1) == nz,
        decode::field(0x3400_0000 | (sf << 31) | (nz << 24) | (imm19 << 5) | rt, 5, 0x7_FFFF) == imm19,
        decode::field(0x3400_0000 | (sf << 31) | (nz << 24) | (imm19 << 5) | rt, 0, 0x1F) == rt,
        decode::field(0x3400_0000 | (sf << 31) | (nz << 24) | (imm19 << 5) | rt, 5, 0x7FF_FFFF) & 0x400_0000
            == sf << 26,
        decode::field(0x3400_0000 | (sf << 31) | (nz << 24) | (imm19 << 5) | rt, 5, 0x7FF_FFFF) != 0x6A9_DF01,
        decode::field(0x3400_0000 | (sf << 31) | (nz << 24) | (imm19 << 5) | rt, 5, 0x7FF_FFFF) != 0x6A9_DF02,
        decode::field(0x3400_0000 | (sf << 31) | (nz << 24) | (imm19 << 5) | rt, 26, 0x3F) != 0b000101,
        decode::field(0x3400_0000 | (sf << 31) | (nz << 24) | (imm19 << 5) | rt, 26, 0x3F) != 0b100101,
        decode::field(0x3600_0000 | (((bit >> 5) as u32) << 31) | (nz << 24) | (((bit & 31) as u32) << 19) | (imm14 << 5) | rt, 25, 0x3F) == 0b011011,
        decode::field(0x3600_0000 | (((bit >> 5) as u32) << 31) | (nz << 24) | (((bit & 31) as u32) << 19) | (imm14 << 5) | rt, 24, 0xFF) != 0b01010100,
        decode::field(0x3600_0000 | (((bit >> 5) as u32) << 31) | (nz << 24) | (((bit & 31) as u32) << 19) | (imm14 << 5) | rt, 26, 0x3F) != 0b000101,
        decode::field(0x3600_0000 | (((bit >> 5) as u32) << 31) | (nz << 24) | (((bit & 31) as u32) << 19) | (imm14 << 5) | rt, 26, 0x3F) != 0b100101,
        32 * decode::field(0x3600_0000 | (((bit >> 5) as u32) << 31) | (nz << 24) | (((bit & 31) as u32) << 19) | (imm14 << 5) | rt, 31, 1) + decode::field(0x3600_0000 | (((bit >> 5) as u32) << 31) | (nz << 24) | (((bit & 31) as u32) << 19) | (imm14 << 5) | rt, 19, 0x1F) == bit,
        decode::field(0x3600_0000 | (((bit >> 5) as u32) << 31) | (nz << 24) | (((bit & 31) as u32) << 19) | (imm14 << 5) | rt, 24, 1) == nz,
        decode::field(0x3600_0000 | (((bit >> 5) as u32) << 31) | (nz << 24) | (((bit & 31) as u32) << 19) | (imm14 << 5) | rt, 5, 0x3FFF) == imm14,
        decode::field(0x3600_0000 | (((bit >> 5) as u32) << 31) | (nz << 24) | (((bit & 31) as u32) << 19) | (imm14 << 5) | rt, 0, 0x1F) == rt,
        decode::field(0x3600_0000 | (((bit >> 5) as u32) << 31) | (nz << 24) | (((bit & 31) as u32) << 19) | (imm14 << 5) | rt, 5, 0x7FF_FFFF) != 0x6A9_DF01,
        decode::field(0x3600_0000 | (((bit >> 5) as u32) << 31) | (nz << 24) | (((bit & 31) as u32) << 19) | (imm14 << 5) | rt, 5, 0x7FF_FFFF) != 0x6A9_DF02,
{
}

/// What the encoders of the relative branches write, the decoder reads: the
/// same kind of branch, register, bit and condition, and the same target.
pub proof fn branches_decode_to_what_was_encoded(
    cond: u8,
    rt: u8,
    tested: u8,
    sf: bool,
    nonzero: bool,
    pc: u64,
    target: u64,
)
    requires
        cond < 14,
        rt < 32,
        tested < 64,
    ensures
        b_word(pc, target) matches Some(w) ==> decode::class_of(w, pc) == (Class::B { target }),
        bl_word(pc, target) matches Some(w) ==> decode::class_of(w, pc) == (Class::Bl { target }),
        b_cond_word(cond, pc, target) matches Some(w) ==> decode::class_of(w, pc) == (Class::BCond {
            cond,
            target,
        }),
        cbz_word(sf, rt, nonzero, pc, target) matches Some(w) ==> decode::class_of(w, pc) == (Class::Cbz {
            sf,
            rt,
            nonzero,
            target,
        }),
        tbz_word(rt, tested, nonzero, pc, target) matches Some(w) ==> decode::class_of(w, pc)
            == (Class::Tbz { rt, bit: tested, nonzero, target }),
{
    reveal(decode::class_of);
    let off = distance(pc, target);
    if fits(off, 0x200_0000) {
        lemma_offset_leads_back(pc, target, 0x200_0000);
        lemma_branch_fields(word_offset(off, 0x200_0000), 0, 0, 0, 0, 0, 0, 0);
    }
    if fits(off, 0x4_0000) {
        lemma_offset_leads_back(pc, target, 0x4_0000);
        lemma_branch_fields(
            0,
            word_offset(off, 0x4_0000),
            0,
            cond as u32,
            rt as u32,
            0,
            flag(sf),
            flag(nonzero),
        );
    }
    if fits(off, 0x2000) {
        lemma_offset_leads_back(pc, target, 0x2000);
        lemma_branch_fields(
            0,
            0,
            word_offset(off, 0x2000),
            0,
            rt as u32,
            tested,
            0,
            flag(nonzero),
        );
    }
}

/// A `b` reaches exactly the word-aligned targets less than 128 MB ahead
/// or at most 128 MB back.
pub proof fn b_reaches_its_range(pc: u64, target: u64)
    ensures
        b_word(pc, target) is Some <==> distance(pc, target) % 4 == 0 && -B_RANGE <= distance(
            pc,
            target,
        ) < B_RANGE,
{
}

proof fn lemma_adrp_fields(lo: u32, hi: u32, rd: u32)
    by (bit_vector)
    requires
        lo < 4,
        hi < 0x8_0000,
        rd < 32,
    ensures
        decode::field(0x9000_0000 | (lo << 29) | (hi << 5) | rd, 29, 3) == lo,
        decode::field(0x9000_0000 | (lo << 29) | (hi << 5) | rd, 5, 0x7_FFFF) == hi,
        decode::field(0x9000_0000 | (lo << 29) | (hi << 5) | rd, 24, 0x1F) == 0b10000,
        decode::field(0x9000_0000 | (lo << 29) | (hi << 5) | rd, 31, 1) == 1,
        decode::field(0x9000_0000 | (lo << 29) | (hi << 5) | rd, 0, 0x1F) == rd,
{
}

/// The page an `adrp` word at `pc` computes
pub open spec fn adrp_page(w: u32, pc: u64) -> int {
    pc / 4096 + decode::signed(4 * decode::field(w, 5, 0x7_FFFF) + decode::field(w, 29, 3), 0x10_0000)
}

/// An encoded `adrp` computes the page of its target, in its register.
pub proof fn adrp_computes_the_page(rd: u8, pc: u64, target: u64)
    requires
        rd < 32,
    ensures
        adrp_word(rd, pc, target) matches Some(w) ==> {
            &&& adrp_page(w, pc) == target / 4096
            &&& decode::register(w, 0) == rd
            &&& decode::bit(w, 31) && decode::field(w, 24, 0x1F) == 0b10000
        },
{
    if adrp_word(rd, pc, target) is Some {
        let imm = pages(pc, target) % 0x20_0000;
        lemma_adrp_fields((imm % 4) as u32, (imm / 4) as u32, rd as u32);
        assert(decode::signed(imm, 0x10_0000) == pages(pc, target));
    }
}

} // verus!
