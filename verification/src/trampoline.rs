//! Trampolines: what a hooked site branches to, and the places they are
//! written to. A trampoline calls its area's copy of the shared body, which
//! decrements the run's quantum counter and enters the scheduler when it
//! expires, and then does what the original instruction did. What names the
//! site to the scheduler is the trampoline's return address, which the body
//! leaves on the stack.

use vstd::prelude::*;
use crate::decode;
use crate::shared::{COUNTER_ENTRY_OFFSET, COUNTER_OFFSET, SLOT_OFFSET, STUB_BASE};
use crate::sites::{Site, SiteKind};
use crate::stub;

verus! {

/// What the stub does after the counter check
#[derive(Clone, Copy)]
pub enum Tail {
    /// `island`: the site is a call, so x16 may be used to reach a far
    /// target, as a linker's branch island would
    Jump { target: u64, island: bool },
    Indirect(u8),
    /// Re-execute the displaced word, then continue after the site
    Replay(u32),
}

/// A local guard placed at the top of a stub for conditional sites; it
/// branches past the stub when the original condition does not hold
#[derive(Clone, Copy)]
pub enum Guard {
    Always,
    Cond(u8),
    Cbz { sf: bool, rt: u8, nonzero: bool },
    Tbz { rt: u8, bit: u8, nonzero: bool },
}

/// How a site is hooked. `call` means the site keeps a `bl` so x30 is set by
/// hardware.
#[derive(Clone, Copy)]
pub enum Hook {
    Stub { guard: Guard, call: bool, tail: Tail },
    /// A counter read into that register
    Counter { rt: u8 },
}

/// Address of word `i` from `base` on; addresses wrap around
pub open spec fn word_addr(base: u64, i: int) -> u64 {
    ((base + 4 * i) % 0x1_0000_0000_0000_0000) as u64
}

pub fn addr_of_word(base: u64, i: usize) -> (r: u64)
    ensures
        r == word_addr(base, i as int),
{
    base.wrapping_add((i as u64).wrapping_mul(4))
}

/// The word after `addr`
pub open spec fn next(addr: u64) -> u64 {
    word_addr(addr, 1)
}

/// Between near words the way is what it seems.
pub proof fn lemma_distance(base: u64, i: int, j: int)
    requires
        0 <= i <= 0x1000_0000,
        0 <= j <= 0x1000_0000,
    ensures
        stub::distance(word_addr(base, i), word_addr(base, j)) == 4 * (j - i),
        word_addr(word_addr(base, i), j) == word_addr(base, i + j),
        word_addr(base, 0) == base,
{
}

/// Whether a hooked memory instruction reads. In most A64 load/store
/// encodings bit 22 says so; the integer register forms (bits 29:27 = 111,
/// V = 0) have a two-bit opc in 23:22 where 10 and 11 are the sign-extending
/// loads.
pub open spec fn loads(word: u32) -> bool {
    if decode::field(word, 27, 7) == 7 && !decode::bit(word, 26) {
        decode::field(word, 22, 3) != 0
    } else {
        decode::bit(word, 22)
    }
}

fn is_load(word: u32) -> (r: bool)
    ensures
        r == loads(word),
{
    assert((word & 0x400_0000 == 0) == ((word >> 26) & 1 != 1) && (word & 0x40_0000 != 0) == ((word
        >> 22) & 1 == 1)) by (bit_vector);
    let integer_register_form = (word >> 27) & 7 == 7 && word & 0x400_0000 == 0;
    if integer_register_form {
        (word >> 22) & 3 != 0
    } else {
        word & 0x40_0000 != 0
    }
}

/// The body every trampoline calls with x0, x1 and x30 live, at `at`: count
/// the event and, when the quantum is out, enter the scheduler. Its own x30
/// is the trampoline's return address, which names the site; the scheduler's
/// entry reads it from the stack, where it is saved before the call.
pub open spec fn common_body(at: u64) -> Seq<u32> {
    seq![
        stub::STP_X0_X1_PRE,
        stub::movz_word(0, STUB_BASE).unwrap(),
        0xF940_0000 | ((COUNTER_OFFSET / 8) << 10) | 1,
        stub::SUB_X1_X1_1,
        0xF900_0000 | ((COUNTER_OFFSET / 8) << 10) | 1,
        stub::cbz_word(true, 1, false, word_addr(at, 5), word_addr(at, 8)).unwrap(),
        stub::LDP_X0_X1_POST,
        stub::RET,
        // Expired: x0 still holds STUB_BASE here
        stub::STR_X30_PRE,
        0xF940_0000 | ((SLOT_OFFSET / 8) << 10),
        stub::cbz_word(true, 0, false, word_addr(at, 10), word_addr(at, 12)).unwrap(),
        stub::BLR_X0,
        stub::LDR_X30_POST,
        stub::b_word(word_addr(at, 13), word_addr(at, 6)).unwrap(),
    ]
}

proof fn lemma_zero_fields(w: u32)
    by (bit_vector)
    ensures
        w | (0u32 << 5) | 1 == w | 1,
        w | (0u32 << 5) | 0 == w,
{
}

/// The shared body at `at`
pub fn emit_common(at: u64) -> (r: Vec<u32>)
    ensures
        r@ == common_body(at),
{
    proof {
        lemma_distance(at, 5, 8);
        lemma_distance(at, 10, 12);
        lemma_distance(at, 13, 6);
        lemma_zero_fields(0xF940_0000 | ((COUNTER_OFFSET / 8) << 10));
        lemma_zero_fields(0xF900_0000 | ((COUNTER_OFFSET / 8) << 10));
        lemma_zero_fields(0xF940_0000 | ((SLOT_OFFSET / 8) << 10));
        assert(stub::only_chunk(STUB_BASE, 2, STUB_BASE as int / 0x1_0000_0000));
    }
    let mut out: Vec<u32> = Vec::new();
    out.push(stub::STP_X0_X1_PRE);
    out.push(stub::movz_x(0, STUB_BASE).unwrap());
    out.push(stub::ldr_x_imm(1, 0, COUNTER_OFFSET));
    out.push(stub::SUB_X1_X1_1);
    out.push(stub::str_x_imm(1, 0, COUNTER_OFFSET));
    out.push(stub::cbz(true, 1, false, addr_of_word(at, 5), addr_of_word(at, 8)).unwrap());
    out.push(stub::LDP_X0_X1_POST);
    out.push(stub::RET);
    out.push(stub::STR_X30_PRE);
    out.push(stub::ldr_x_imm(0, 0, SLOT_OFFSET));
    out.push(stub::cbz(true, 0, false, addr_of_word(at, 10), addr_of_word(at, 12)).unwrap());
    out.push(stub::BLR_X0);
    out.push(stub::LDR_X30_POST);
    out.push(stub::b(addr_of_word(at, 13), addr_of_word(at, 6)).unwrap());
    assert(out@ =~= common_body(at));
    out
}

/// What a trampoline ends with, at `at`: the original branch, or the
/// displaced word and the way back
pub open spec fn tail_words(tail: Tail, site: u64, at: u64) -> Option<Seq<u32>> {
    match tail {
        Tail::Jump { target, island } => match stub::b_word(at, target) {
            Some(w) => Some(seq![w]),
            // A callee may be anywhere in the text; the other hooked
            // branches stay inside their function
            None => if !island {
                None
            } else {
                match stub::adrp_word(16, at, target) {
                    Some(page) => Some(
                        seq![
                            page,
                            0x9100_0000u32 | (((target % 4096) as u32) << 10) | (16u32 << 5) | 16,
                            0xD61F_0000 | (16u32 << 5),
                        ],
                    ),
                    None => None,
                }
            },
        },
        Tail::Indirect(rn) => Some(seq![0xD61F_0000 | ((rn as u32) << 5)]),
        Tail::Replay(word) => match stub::b_word(next(at), next(site)) {
            Some(w) => Some(seq![word, w]),
            None => None,
        },
    }
}

fn emit_tail(out: &mut Vec<u32>, tail: Tail, site: u64, at: u64) -> (r: bool)
    ensures
        match tail_words(tail, site, at) {
            Some(words) => r && final(out)@ == old(out)@ + words,
            None => !r,
        },
{
    let ghost before = out@;
    match tail {
        Tail::Jump { target, island } => {
            match stub::b(at, target) {
                Some(w) => {
                    out.push(w);
                    assert(out@ =~= before + seq![w]);
                },
                None => {
                    if !island {
                        return false;
                    }
                    match stub::adrp(16, at, target) {
                        Some(page) => {
                            out.push(page);
                            out.push(stub::add_imm(16, 16, (target % 4096) as u32));
                            out.push(stub::br(16));
                            assert(out@ =~= before + tail_words(tail, site, at).unwrap());
                        },
                        None => {
                            return false;
                        },
                    }
                },
            }
        },
        Tail::Indirect(rn) => {
            out.push(stub::br(rn));
            assert(out@ =~= before + tail_words(tail, site, at).unwrap());
        },
        Tail::Replay(word) => {
            match stub::b(addr_of_word(at, 1), addr_of_word(site, 1)) {
                Some(w) => {
                    out.push(word);
                    out.push(w);
                    assert(out@ =~= before + seq![word, w]);
                },
                None => {
                    return false;
                },
            }
        },
    }
    true
}

/// The guard at `pc`, which passes the stub by where the original condition
/// does not hold
pub open spec fn guard_word(guard: Guard, pc: u64, past: u64) -> u32 {
    match guard {
        Guard::Always => 0,
        Guard::Cond(c) => stub::b_cond_word(decode::flipped(c), pc, past).unwrap(),
        Guard::Cbz { sf, rt, nonzero } => stub::cbz_word(sf, rt, !nonzero, pc, past).unwrap(),
        Guard::Tbz { rt, bit, nonzero } => stub::tbz_word(rt, bit, !nonzero, pc, past).unwrap(),
    }
}

/// A hook's words: what the site becomes, the trampoline, and which of its
/// words the shared body returns to
pub struct Code {
    pub site_word: u32,
    pub words: Seq<u32>,
    pub yields: int,
}

/// The words of a trampoline at `start` in an area whose body is at
/// `common`; none where a branch does not reach
#[verifier::opaque]
pub open spec fn stub_code(guard: Guard, call: bool, tail: Tail, site: u64, start: u64, common: u64) -> Option<
    Code,
> {
    let g: int = if guard is Always {
        0
    } else {
        1
    };
    let site_word = if call {
        stub::bl_word(site, start)
    } else {
        stub::b_word(site, start)
    };
    match (
        site_word,
        stub::bl_word(word_addr(start, g + 1), common),
        tail_words(tail, site, word_addr(start, g + 3)),
    ) {
        (Some(site_word), Some(to_common), Some(last)) => {
            let body = seq![stub::STR_X30_PRE, to_common, stub::LDR_X30_POST] + last;
            if guard is Always {
                Some(Code { site_word, words: body, yields: 2 })
            } else {
                let past = word_addr(start, body.len() as int + 1);
                match stub::b_word(past, next(site)) {
                    Some(back) => Some(
                        Code {
                            site_word,
                            words: seq![guard_word(guard, start, past)] + body + seq![back],
                            yields: 3,
                        },
                    ),
                    None => None,
                }
            }
        },
        _ => None,
    }
}

/// The words that answer a counter read: call the supervisor's entry
/// (`COUNTER_ENTRY_OFFSET`) with the register number in the word after the
/// call, for the entry to write the count into. The entry pops x0 and x1
/// and returns past that word.
#[verifier::opaque]
pub open spec fn counter_code(rt: u8, site: u64, start: u64) -> Option<Code> {
    match (stub::b_word(site, start), stub::b_word(word_addr(start, 7), next(site))) {
        (Some(site_word), Some(back)) => Some(
            Code {
                site_word,
                words: seq![
                    stub::STR_X30_PRE,
                    stub::STP_X0_X1_PRE,
                    stub::movz_word(0, STUB_BASE).unwrap(),
                    0xF940_0000 | ((COUNTER_ENTRY_OFFSET / 8) << 10) | 1,
                    stub::BLR_X1,
                    rt as u32,
                    stub::LDR_X30_POST,
                    back,
                ],
                yields: 5,
            },
        ),
        _ => None,
    }
}

pub open spec fn code_for(hook: Hook, site: u64, start: u64, common: u64) -> Option<Code> {
    match hook {
        Hook::Stub { guard, call, tail } => stub_code(guard, call, tail, site, start, common),
        Hook::Counter { rt } => counter_code(rt, site, start),
    }
}

pub open spec fn kind_of(hook: Hook) -> SiteKind {
    match hook {
        Hook::Stub { guard: _, call, tail } => match tail {
            Tail::Replay(word) => if loads(word) {
                SiteKind::Load
            } else {
                SiteKind::Store
            },
            _ => if call {
                SiteKind::Call
            } else {
                SiteKind::Branch
            },
        },
        Hook::Counter { rt: _ } => SiteKind::Counter,
    }
}

fn hook_kind(hook: Hook) -> (r: SiteKind)
    ensures
        r == kind_of(hook),
{
    match hook {
        Hook::Stub { guard: _, call, tail } => match tail {
            Tail::Replay(word) => if is_load(word) {
                SiteKind::Load
            } else {
                SiteKind::Store
            },
            _ => if call {
                SiteKind::Call
            } else {
                SiteKind::Branch
            },
        },
        Hook::Counter { rt: _ } => SiteKind::Counter,
    }
}

/// A hook's words as they are emitted
pub struct Emitted {
    pub site_word: u32,
    pub words: Vec<u32>,
    pub yields: usize,
}

impl View for Emitted {
    type V = Code;

    open spec fn view(&self) -> Code {
        Code { site_word: self.site_word, words: self.words@, yields: self.yields as int }
    }
}

fn emit_guard(guard: Guard, pc: u64, words: usize) -> (r: u32)
    requires
        !(guard is Always),
        words <= 100,
    ensures
        r == guard_word(guard, pc, word_addr(pc, words as int)),
{
    let past: u64 = addr_of_word(pc, words);
    proof {
        lemma_distance(pc, 0, words as int);
    }
    match guard {
        Guard::Always => 0,
        Guard::Cond(c) => stub::b_cond(decode::invert_cond(c), pc, past).unwrap(),
        Guard::Cbz { sf, rt, nonzero } => stub::cbz(sf, rt, !nonzero, pc, past).unwrap(),
        Guard::Tbz { rt, bit, nonzero } => stub::tbz(rt, bit, !nonzero, pc, past).unwrap(),
    }
}

fn stub_or_far(guard: Guard, call: bool, tail: Tail, site: u64, start: u64, common: u64) -> (r: Option<
    Emitted,
>)
    ensures
        match r {
            Some(e) => stub_code(guard, call, tail, site, start, common) == Some(e@),
            None => stub_code(guard, call, tail, site, start, common) is None,
        },
{
    proof {
        reveal(stub_code);
    }
    let guarded = !matches!(guard, Guard::Always);
    let g: usize = if guarded {
        1
    } else {
        0
    };
    let site_word: u32 = match if call {
        stub::bl(site, start)
    } else {
        stub::b(site, start)
    } {
        Some(w) => w,
        None => {
            return None;
        },
    };
    let to_common: u32 = match stub::bl(addr_of_word(start, g + 1), common) {
        Some(w) => w,
        None => {
            return None;
        },
    };
    let mut body: Vec<u32> = Vec::new();
    body.push(stub::STR_X30_PRE);
    body.push(to_common);
    body.push(stub::LDR_X30_POST);
    assert(body@ =~= seq![stub::STR_X30_PRE, to_common, stub::LDR_X30_POST]);
    if !emit_tail(&mut body, tail, site, addr_of_word(start, g + 3)) {
        return None;
    }
    if !guarded {
        return Some(Emitted { site_word, words: body, yields: 2 });
    }
    let n: usize = body.len();
    assert(n <= 6);
    let back: u32 = match stub::b(addr_of_word(start, n + 1), addr_of_word(site, 1)) {
        Some(w) => w,
        None => {
            return None;
        },
    };
    let mut words: Vec<u32> = Vec::new();
    let first: u32 = emit_guard(guard, start, n + 1);
    words.push(first);
    let ghost middle = body@;
    words.append(&mut body);
    words.push(back);
    assert(words@ =~= seq![first] + middle + seq![back]);
    Some(Emitted { site_word, words, yields: 3 })
}

fn counter_words(rt: u8, site: u64, start: u64) -> (r: Option<Emitted>)
    ensures
        match r {
            Some(e) => counter_code(rt, site, start) == Some(e@),
            None => counter_code(rt, site, start) is None,
        },
{
    proof {
        reveal(counter_code);
    }
    let site_word: u32 = match stub::b(site, start) {
        Some(w) => w,
        None => {
            return None;
        },
    };
    let back: u32 = match stub::b(addr_of_word(start, 7), addr_of_word(site, 1)) {
        Some(w) => w,
        None => {
            return None;
        },
    };
    proof {
        lemma_zero_fields(0xF940_0000 | ((COUNTER_ENTRY_OFFSET / 8) << 10));
        assert(stub::only_chunk(STUB_BASE, 2, STUB_BASE as int / 0x1_0000_0000));
    }
    let mut words: Vec<u32> = Vec::new();
    words.push(stub::STR_X30_PRE);
    words.push(stub::STP_X0_X1_PRE);
    words.push(stub::movz_x(0, STUB_BASE).unwrap());
    words.push(stub::ldr_x_imm(1, 0, COUNTER_ENTRY_OFFSET));
    words.push(stub::BLR_X1);
    words.push(rt as u32);
    words.push(stub::LDR_X30_POST);
    words.push(back);
    assert(words@ =~= counter_code(rt, site, start).unwrap().words);
    Some(Emitted { site_word, words, yields: 5 })
}

fn emit_hook(hook: Hook, site: u64, start: u64, common: u64) -> (r: Option<Emitted>)
    ensures
        match r {
            Some(e) => code_for(hook, site, start, common) == Some(e@),
            None => code_for(hook, site, start, common) is None,
        },
{
    match hook {
        Hook::Stub { guard, call, tail } => stub_or_far(guard, call, tail, site, start, common),
        Hook::Counter { rt } => counter_words(rt, site, start),
    }
}

/// A stretch of address space trampolines are written to: the `__STUB`
/// segment, or a room the program was linked with
pub struct Area {
    pub base: u64,
    /// Bytes it may hold (None: as many as it takes)
    pub capacity: Option<u64>,
    /// Address of this area's copy of the shared body
    pub common: u64,
    pub code: Vec<u32>,
}

pub struct AreaView {
    pub base: u64,
    pub capacity: Option<u64>,
    pub common: u64,
    pub code: Seq<u32>,
}

impl View for Area {
    type V = AreaView;

    open spec fn view(&self) -> AreaView {
        AreaView {
            base: self.base,
            capacity: self.capacity,
            common: self.common,
            code: self.code@,
        }
    }
}

impl AreaView {
    /// An area that holds the shared body and nothing else
    pub open spec fn fresh(base: u64, capacity: Option<u64>) -> AreaView {
        AreaView { base, capacity, common: base, code: common_body(base) }
    }

    /// Where the next trampoline begins
    pub open spec fn end(self) -> u64 {
        word_addr(self.base, self.code.len() as int)
    }

    pub open spec fn holds(self, words: int) -> bool {
        self.capacity matches Some(bytes) ==> 4 * words <= bytes
    }

    /// Whether this area takes the hook of `site`: every branch reaches and
    /// the words fit
    pub open spec fn takes(self, hook: Hook, site: u64) -> bool {
        code_for(hook, site, self.end(), self.common) matches Some(c) && self.holds(
            self.code.len() as int + c.words.len() as int,
        )
    }
}

pub struct Builder {
    /// The segment first, then the rooms in address order
    pub areas: Vec<Area>,
    pub text_base: u64,
    /// Sites left alone because no area was in a `b`'s reach
    pub unreachable: usize,
    /// Sites tried, per MB of text: what a room plan needs
    pub site_buckets: Vec<u32>,
    pub patches: Vec<(u64, u32)>,
    pub sites: Vec<Site>,
}

/// What has been built so far
pub struct Built {
    pub areas: Seq<AreaView>,
    pub text_base: u64,
    pub unreachable: usize,
    pub buckets: Seq<u32>,
    pub patches: Seq<(u64, u32)>,
    pub sites: Seq<Site>,
}

impl View for Builder {
    type V = Built;

    open spec fn view(&self) -> Built {
        Built {
            areas: self.areas@.map_values(|a: Area| a@),
            text_base: self.text_base,
            unreachable: self.unreachable,
            buckets: self.site_buckets@,
            patches: self.patches@,
            sites: self.sites@,
        }
    }
}

/// The megabyte of text a site lies in
pub open spec fn bucket_of(text_base: u64, site: u64) -> int {
    if site < text_base {
        0
    } else {
        (site - text_base) / 0x10_0000
    }
}

/// The counts per megabyte with one more in `at`
pub open spec fn counted(buckets: Seq<u32>, at: int) -> Seq<u32> {
    let long = if buckets.len() <= at {
        buckets + Seq::new((at + 1 - buckets.len()) as nat, |i: int| 0u32)
    } else {
        buckets
    };
    long.update(at, long[at].wrapping_add(1))
}

impl Built {
    pub open spec fn fresh(segment: u64, rooms: Seq<(u64, u64)>, text_base: u64) -> Built {
        Built {
            areas: seq![AreaView::fresh(segment, None)] + rooms.map_values(
                |r: (u64, u64)| AreaView::fresh(r.0, Some((r.1 - r.0) as u64)),
            ),
            text_base,
            unreachable: 0,
            buckets: Seq::empty(),
            patches: Seq::empty(),
            sites: Seq::empty(),
        }
    }

    /// The first area, from number `i` on, that takes the hook
    pub open spec fn taker(self, hook: Hook, site: u64, i: int) -> Option<int>
        decreases self.areas.len() - i,
    {
        if i < 0 || i >= self.areas.len() {
            None
        } else if self.areas[i].takes(hook, site) {
            Some(i)
        } else {
            self.taker(hook, site, i + 1)
        }
    }

    pub open spec fn reaches(self, hook: Hook, site: u64) -> bool {
        self.taker(hook, site, 0) is Some
    }

    /// With the hook of `site` in the first area that takes it; a site that
    /// none takes is left alone and counted
    pub open spec fn hooked(self, hook: Hook, site: u64) -> Built {
        match self.taker(hook, site, 0) {
            Some(i) => {
                let area = self.areas[i];
                let start = area.end();
                let code = code_for(hook, site, start, area.common).unwrap();
                Built {
                    areas: self.areas.update(
                        i,
                        AreaView { code: area.code + code.words, ..area },
                    ),
                    patches: self.patches.push((site, code.site_word)),
                    sites: self.sites.push(
                        Site {
                            yield_pc: word_addr(start, code.yields),
                            addr: site,
                            kind: kind_of(hook),
                        },
                    ),
                    ..self
                }
            },
            None => Built { unreachable: self.unreachable.wrapping_add(1), ..self },
        }
    }

    /// With a site counted in its megabyte
    pub open spec fn tried(self, site: u64) -> Built {
        Built { buckets: counted(self.buckets, bucket_of(self.text_base, site)), ..self }
    }
}

/// The area that takes a hook is one of them, and takes it.
pub proof fn lemma_taker(b: Built, hook: Hook, site: u64, i: int)
    requires
        0 <= i,
    ensures
        b.taker(hook, site, i) matches Some(k) ==> i <= k < b.areas.len() && b.areas[k].takes(
            hook,
            site,
        ),
    decreases b.areas.len() - i,
{
    if i < b.areas.len() && !b.areas[i].takes(hook, site) {
        lemma_taker(b, hook, site, i + 1);
    }
}

impl Builder {
    pub fn new(segment: u64, rooms: &Vec<(u64, u64)>, text_base: u64) -> (r: Self)
        requires
            forall|i: int| 0 <= i < rooms.len() ==> (#[trigger] rooms@[i]).0 <= rooms@[i].1,
        ensures
            r@ == Built::fresh(segment, rooms@, text_base),
    {
        let mut areas: Vec<Area> = Vec::new();
        areas.push(Area { base: segment, capacity: None, common: segment, code: emit_common(segment) });
        let ghost wanted = Built::fresh(segment, rooms@, text_base);
        let mut i: usize = 0;
        while i < rooms.len()
            invariant
                i <= rooms.len(),
                forall|k: int| 0 <= k < rooms.len() ==> (#[trigger] rooms@[k]).0 <= rooms@[k].1,
                wanted == Built::fresh(segment, rooms@, text_base),
                areas.len() == i + 1,
                forall|k: int| 0 <= k <= i ==> (#[trigger] areas@[k])@ == wanted.areas[k],
            decreases rooms.len() - i,
        {
            let (start, end) = rooms[i];
            areas.push(
                Area {
                    base: start,
                    capacity: Some(end - start),
                    common: start,
                    code: emit_common(start),
                },
            );
            i += 1;
        }
        let b = Builder {
            areas,
            text_base,
            unreachable: 0,
            site_buckets: Vec::new(),
            patches: Vec::new(),
            sites: Vec::new(),
        };
        assert(b@.areas =~= wanted.areas);
        assert(b@.buckets =~= wanted.buckets);
        assert(b@.patches =~= wanted.patches);
        assert(b@.sites =~= wanted.sites);
        b
    }

    /// Count a site in its megabyte.
    fn count_site(&mut self, site: u64)
        requires
            bucket_of(old(self).text_base, site) < usize::MAX,
        ensures
            final(self)@ == old(self)@.tried(site),
    {
        let bucket: usize = (if site < self.text_base {
            0
        } else {
            (site - self.text_base) / 0x10_0000
        }) as usize;
        let ghost before = self.site_buckets@;
        while self.site_buckets.len() <= bucket
            invariant
                bucket < usize::MAX,
                bucket == bucket_of(old(self).text_base, site),
                self.text_base == old(self).text_base,
                self.areas@ == old(self).areas@,
                self.unreachable == old(self).unreachable,
                self.patches@ == old(self).patches@,
                self.sites@ == old(self).sites@,
                before == old(self).site_buckets@,
                self.site_buckets@.len() >= before.len(),
                self.site_buckets@.len() == before.len() || self.site_buckets@.len() <= bucket + 1,
                self.site_buckets@ == before + Seq::new(
                    (self.site_buckets@.len() - before.len()) as nat,
                    |i: int| 0u32,
                ),
            decreases bucket + 1 - self.site_buckets@.len(),
        {
            self.site_buckets.push(0);
            assert(self.site_buckets@ =~= before + Seq::new(
                (self.site_buckets@.len() - before.len()) as nat,
                |i: int| 0u32,
            ));
        }
        let n: u32 = self.site_buckets[bucket];
        self.site_buckets.set(bucket, n.wrapping_add(1));
        assert(self.site_buckets@ =~= counted(before, bucket as int));
    }

    /// Emit the hook of `site` and record the site patch, in the first area
    /// a `b` reaches from the site and from which the tail reaches its
    /// target: the segment, else a room. Returns false, having emitted
    /// nothing, when no area will do: a program of over about 120 MB has
    /// such sites unless it was linked with rooms, and they stay as they
    /// are.
    fn place(&mut self, hook: Hook, site: u64) -> (r: bool)
        ensures
            r == old(self)@.reaches(hook, site),
            final(self)@ == old(self)@.hooked(hook, site),
    {
        let mut i: usize = 0;
        while i < self.areas.len()
            invariant
                i <= self.areas.len(),
                *self == *old(self),
                old(self)@.taker(hook, site, 0) == old(self)@.taker(hook, site, i as int),
            decreases self.areas.len() - i,
        {
            let n: usize = self.areas[i].code.len();
            let start: u64 = addr_of_word(self.areas[i].base, n);
            assert(old(self)@.areas[i as int] == self.areas@[i as int]@);
            match emit_hook(hook, site, start, self.areas[i].common) {
                Some(mut e) => {
                    let fits = match self.areas[i].capacity {
                        Some(bytes) => n as u64 <= bytes / 4 && e.words.len() as u64 <= bytes / 4
                            - n as u64,
                        None => true,
                    };
                    assert(fits == old(self)@.areas[i as int].holds(n + e.words.len()));
                    if fits {
                        let ghost area = self.areas@[i as int]@;
                        let ghost code = e@;
                        let yield_pc: u64 = addr_of_word(start, e.yields);
                        let mut words = e.words;
                        let ghost old_code = self.areas@[i as int].code@;
                        let a = &mut self.areas[i];
                        a.code.append(&mut words);
                        self.patches.push((site, e.site_word));
                        self.sites.push(Site { yield_pc, addr: site, kind: hook_kind(hook) });
                        proof {
                            let wanted = old(self)@.hooked(hook, site);
                            assert(self.areas@[i as int].code@ =~= old_code + code.words);
                            assert(self@.areas =~= wanted.areas);
                            assert(self@.patches =~= wanted.patches);
                            assert(self@.sites =~= wanted.sites);
                        }
                        return true;
                    }
                },
                None => {},
            }
            i += 1;
        }
        self.unreachable = self.unreachable.wrapping_add(1);
        false
    }

    /// Hook a branch, call or memory access.
    pub fn stub(&mut self, site: u64, guard: Guard, call: bool, tail: Tail) -> (r: bool)
        requires
            bucket_of(old(self).text_base, site) < usize::MAX,
        ensures
            r == old(self)@.tried(site).reaches((Hook::Stub { guard, call, tail }), site),
            final(self)@ == old(self)@.tried(site).hooked((Hook::Stub { guard, call, tail }), site),
    {
        self.count_site(site);
        self.place(Hook::Stub { guard, call, tail }, site)
    }

    /// Hook a counter read.
    pub fn counter_stub(&mut self, site: u64, rt: u8) -> (r: bool)
        ensures
            r == old(self)@.reaches((Hook::Counter { rt }), site),
            final(self)@ == old(self)@.hooked((Hook::Counter { rt }), site),
    {
        self.place(Hook::Counter { rt }, site)
    }
}

/// A hooked site leads to its trampoline, the trampoline calls the area's
/// shared body and returns to the word that names the site, and then does
/// what the site did: a jump goes on to the same target, near or through
/// x16, an indirect jump through the same register, and a displaced word
/// runs and control goes on behind the site.
pub proof fn a_trampoline_does_what_the_site_did(
    call: bool,
    tail: Tail,
    site: u64,
    start: u64,
    common: u64,
)
    ensures
        stub_code(Guard::Always, call, tail, site, start, common) matches Some(c) ==> {
            let at = word_addr(start, 3);
            &&& decode::class_of(c.site_word, site) == (if call {
                decode::Class::Bl { target: start }
            } else {
                decode::Class::B { target: start }
            })
            &&& decode::class_of(c.words[1], word_addr(start, 1)) == (decode::Class::Bl {
                target: common,
            })
            &&& word_addr(start, c.yields) == word_addr(start, 2)
            &&& match tail {
                Tail::Jump { target, island } => {
                    ||| c.words.len() == 4 && decode::class_of(c.words[3], at) == (
                    decode::Class::B { target })
                    ||| {
                        &&& island && c.words.len() == 6
                        &&& 4096 * stub::adrp_page(c.words[3], at) + decode::field(
                            c.words[4],
                            10,
                            0xFFF,
                        ) == target
                        &&& decode::class_of(c.words[5], word_addr(start, 5)) == (
                        decode::Class::Br { rn: 16 })
                    }
                },
                Tail::Indirect(rn) => rn < 32 ==> c.words.len() == 4 && decode::class_of(
                    c.words[3],
                    at,
                ) == (decode::Class::Br { rn }),
                Tail::Replay(word) => c.words.len() == 5 && c.words[3] == word && decode::class_of(
                    c.words[4],
                    word_addr(start, 4),
                ) == (decode::Class::B { target: next(site) }),
            }
        },
{
    if let Some(c) = stub_code(Guard::Always, call, tail, site, start, common) {
        reveal(stub_code);
        stub::branches_decode_to_what_was_encoded(0, 0, 0, false, false, site, start);
        stub::branches_decode_to_what_was_encoded(
            0,
            0,
            0,
            false,
            false,
            word_addr(start, 1),
            common,
        );
        let at = word_addr(start, 3);
        assert(c.words[1] == stub::bl_word(word_addr(start, 1), common).unwrap());
        match tail {
            Tail::Jump { target, island } => {
                stub::branches_decode_to_what_was_encoded(0, 0, 0, false, false, at, target);
                if stub::b_word(at, target) is None {
                    stub::adrp_computes_the_page(16, at, target);
                    lemma_island_fields((target % 4096) as u32);
                    reveal(decode::class_of);
                }
            },
            Tail::Indirect(rn) => {
                if rn < 32 {
                    lemma_br_fields(rn as u32);
                    reveal(decode::class_of);
                }
            },
            Tail::Replay(word) => {
                lemma_distance(start, 3, 1);
                assert(next(at) == word_addr(start, 4));
                stub::branches_decode_to_what_was_encoded(
                    0,
                    0,
                    0,
                    false,
                    false,
                    word_addr(start, 4),
                    next(site),
                );
            },
        }
    }
}

proof fn lemma_island_fields(imm: u32)
    by (bit_vector)
    requires
        imm < 4096,
    ensures
        decode::field(0x9100_0000u32 | (imm << 10) | (16u32 << 5) | 16, 10, 0xFFF) == imm,
        decode::field(0xD61F_0000 | (16u32 << 5), 5, 0x1F) == 16,
        decode::field(0xD61F_0000 | (16u32 << 5), 10, 0x3F_FFFF) == 0x35_87C0,
        decode::field(0xD61F_0000 | (16u32 << 5), 0, 0x1F) == 0,
        decode::field(0xD61F_0000 | (16u32 << 5), 26, 0x3F) == 0b110101,
        decode::field(0xD61F_0000 | (16u32 << 5), 24, 0xFF) == 0b11010110,
        decode::field(0xD61F_0000 | (16u32 << 5), 25, 0x3F) == 0b101011,
        decode::field(0xD61F_0000 | (16u32 << 5), 5, 0x7FF_FFFF) == 0x6B0_F810,
{
}

proof fn lemma_br_fields(rn: u32)
    by (bit_vector)
    requires
        rn < 32,
    ensures
        decode::field(0xD61F_0000 | (rn << 5), 5, 0x1F) == rn,
        decode::field(0xD61F_0000 | (rn << 5), 10, 0x3F_FFFF) == 0x35_87C0,
        decode::field(0xD61F_0000 | (rn << 5), 0, 0x1F) == 0,
        decode::field(0xD61F_0000 | (rn << 5), 26, 0x3F) == 0b110101,
        decode::field(0xD61F_0000 | (rn << 5), 24, 0xFF) == 0b11010110,
        decode::field(0xD61F_0000 | (rn << 5), 25, 0x3F) == 0b101011,
        decode::field(0xD61F_0000 | (rn << 5), 5, 0x7FF_FFFF) == 0x6B0_F800 + rn,
{
}

/// A conditional site's trampoline begins with the opposite condition on
/// the same register and bit, which leads to a last word that goes on
/// behind the site; between the two stands the trampoline of the jump
/// itself.
pub proof fn a_guard_passes_the_trampoline_by(
    guard: Guard,
    target: u64,
    site: u64,
    start: u64,
    common: u64,
)
    requires
        !(guard is Always),
        guard matches Guard::Cond(cond) ==> cond < 14,
        guard matches Guard::Cbz { sf, rt, nonzero } ==> rt < 32,
        guard matches Guard::Tbz { rt, bit, nonzero } ==> rt < 32 && bit < 64,
    ensures
        stub_code(
            guard,
            false,
            (Tail::Jump { target, island: false }),
            site,
            start,
            common,
        ) matches Some(c) ==> {
            let past = word_addr(start, 5);
            &&& c.words.len() == 6
            &&& decode::class_of(c.site_word, site) == (decode::Class::B { target: start })
            &&& decode::class_of(c.words[0], start) == (match guard {
                Guard::Always => decode::Class::Other,
                Guard::Cond(cond) => decode::Class::BCond {
                    cond: decode::flipped(cond),
                    target: past,
                },
                Guard::Cbz { sf, rt, nonzero } => decode::Class::Cbz {
                    sf,
                    rt,
                    nonzero: !nonzero,
                    target: past,
                },
                Guard::Tbz { rt, bit, nonzero } => decode::Class::Tbz {
                    rt,
                    bit,
                    nonzero: !nonzero,
                    target: past,
                },
            })
            &&& decode::class_of(c.words[2], word_addr(start, 2)) == (decode::Class::Bl {
                target: common,
            })
            &&& decode::class_of(c.words[4], word_addr(start, 4)) == (decode::Class::B { target })
            &&& decode::class_of(c.words[5], past) == (decode::Class::B { target: next(site) })
            &&& c.yields == 3
        },
{
    let tail = Tail::Jump { target, island: false };
    if let Some(c) = stub_code(guard, false, tail, site, start, common) {
        reveal(stub_code);
        let past = word_addr(start, 5);
        let (cond, rt, bit, sf, nz) = match guard {
            Guard::Always => (0u8, 0u8, 0u8, false, false),
            Guard::Cond(cond) => (decode::flipped(cond), 0u8, 0u8, false, false),
            Guard::Cbz { sf, rt, nonzero } => (0u8, rt, 0u8, sf, !nonzero),
            Guard::Tbz { rt, bit, nonzero } => (0u8, rt, bit, false, !nonzero),
        };
        lemma_distance(start, 0, 5);
        stub::branches_decode_to_what_was_encoded(0, 0, 0, false, false, site, start);
        stub::branches_decode_to_what_was_encoded(cond, rt, bit, sf, nz, start, past);
        stub::branches_decode_to_what_was_encoded(
            0,
            0,
            0,
            false,
            false,
            word_addr(start, 2),
            common,
        );
        stub::branches_decode_to_what_was_encoded(
            0,
            0,
            0,
            false,
            false,
            word_addr(start, 4),
            target,
        );
        stub::branches_decode_to_what_was_encoded(0, 0, 0, false, false, past, next(site));
    }
}

/// The body that trampolines share counts in the shared page and goes where it
/// should: back to the trampoline while the quantum lasts, and to the scheduler,
/// where there is one, when it is out.
pub proof fn the_shared_body_goes_where_it_should(at: u64)
    ensures
        ({
            let b = common_body(at);
            &&& b.len() == 14
            &&& decode::class_of(b[5], word_addr(at, 5)) == (decode::Class::Cbz {
                sf: true,
                rt: 1,
                nonzero: false,
                target: word_addr(at, 8),
            })
            &&& decode::class_of(b[7], word_addr(at, 7)) == decode::Class::Ret
            &&& decode::class_of(b[10], word_addr(at, 10)) == (decode::Class::Cbz {
                sf: true,
                rt: 0,
                nonzero: false,
                target: word_addr(at, 12),
            })
            &&& decode::class_of(b[11], word_addr(at, 11)) == (decode::Class::Blr { rn: 0 })
            &&& decode::class_of(b[13], word_addr(at, 13)) == (decode::Class::B {
                target: word_addr(at, 6),
            })
        }),
{
    lemma_distance(at, 5, 8);
    lemma_distance(at, 10, 12);
    lemma_distance(at, 13, 6);
    stub::branches_decode_to_what_was_encoded(
        0,
        1,
        0,
        true,
        false,
        word_addr(at, 5),
        word_addr(at, 8),
    );
    stub::branches_decode_to_what_was_encoded(
        0,
        0,
        0,
        true,
        false,
        word_addr(at, 10),
        word_addr(at, 12),
    );
    stub::branches_decode_to_what_was_encoded(
        0,
        0,
        0,
        false,
        false,
        word_addr(at, 13),
        word_addr(at, 6),
    );
    decode::laws::register_branches_are_known(0, 0, word_addr(at, 11));
    decode::laws::register_branches_are_known(30, 0, word_addr(at, 7));
    assert(0xD63F_0000u32 | (0u32 << 5) == 0xD63F_0000u32 && 0xD65F_0000u32 | (30u32 << 5)
        == 0xD65F_03C0u32) by (bit_vector);
}

/// A counter read is answered in its register: the site leads to words that call
/// the supervisor's entry, with the register's number behind the call, and go on
/// behind the site.
pub proof fn a_counter_read_is_answered(rt: u8, site: u64, start: u64)
    ensures
        counter_code(rt, site, start) matches Some(c) ==> {
            &&& c.words.len() == 8
            &&& decode::class_of(c.site_word, site) == (decode::Class::B { target: start })
            &&& decode::class_of(c.words[4], word_addr(start, 4)) == (decode::Class::Blr { rn: 1 })
            &&& c.words[5] == rt
            &&& c.yields == 5
            &&& decode::class_of(c.words[7], word_addr(start, 7)) == (decode::Class::B {
                target: word_addr(site, 1),
            })
        },
{
    if let Some(c) = counter_code(rt, site, start) {
        reveal(counter_code);
        stub::branches_decode_to_what_was_encoded(0, 0, 0, false, false, site, start);
        stub::branches_decode_to_what_was_encoded(
            0,
            0,
            0,
            false,
            false,
            word_addr(start, 7),
            word_addr(site, 1),
        );
        decode::laws::register_branches_are_known(1, 0, word_addr(start, 4));
        assert(0xD63F_0000u32 | (1u32 << 5) == 0xD63F_0020u32) by (bit_vector);
    }
}

/// Loads and stores are told apart: of a register, of a pair, and the
/// sign-extending loads.
pub proof fn loads_and_stores_are_told_apart(x: u32)
    requires
        x < 0x40_0000,
    ensures
        loads(0xF940_0000 | x),
        !loads(0xF900_0000 | x),
        loads(0xB940_0000 | x),
        !loads(0xB900_0000 | x),
        loads(0xB980_0000 | x),
        loads(0x3940_0000 | x),
        !loads(0x3900_0000 | x),
        loads(0xA940_0000 | x),
        !loads(0xA900_0000 | x),
        loads(0xFD40_0000 | x),
        !loads(0xFD00_0000 | x),
{
    lemma_load_bits(x);
}

proof fn lemma_load_bits(x: u32)
    by (bit_vector)
    requires
        x < 0x40_0000,
    ensures
        decode::field(0xF940_0000u32 | x, 27, 7) == 7 && decode::field(0xF940_0000u32 | x, 26, 1) == 0 && decode::field(0xF940_0000u32 | x, 22, 3) == 1 && decode::field(0xF940_0000u32 | x, 22, 1) == 1,
        decode::field(0xF900_0000u32 | x, 27, 7) == 7 && decode::field(0xF900_0000u32 | x, 26, 1) == 0 && decode::field(0xF900_0000u32 | x, 22, 3) == 0 && decode::field(0xF900_0000u32 | x, 22, 1) == 0,
        decode::field(0xB940_0000u32 | x, 27, 7) == 7 && decode::field(0xB940_0000u32 | x, 26, 1) == 0 && decode::field(0xB940_0000u32 | x, 22, 3) == 1 && decode::field(0xB940_0000u32 | x, 22, 1) == 1,
        decode::field(0xB900_0000u32 | x, 27, 7) == 7 && decode::field(0xB900_0000u32 | x, 26, 1) == 0 && decode::field(0xB900_0000u32 | x, 22, 3) == 0 && decode::field(0xB900_0000u32 | x, 22, 1) == 0,
        decode::field(0xB980_0000u32 | x, 27, 7) == 7 && decode::field(0xB980_0000u32 | x, 26, 1) == 0 && decode::field(0xB980_0000u32 | x, 22, 3) == 2 && decode::field(0xB980_0000u32 | x, 22, 1) == 0,
        decode::field(0x3940_0000u32 | x, 27, 7) == 7 && decode::field(0x3940_0000u32 | x, 26, 1) == 0 && decode::field(0x3940_0000u32 | x, 22, 3) == 1 && decode::field(0x3940_0000u32 | x, 22, 1) == 1,
        decode::field(0x3900_0000u32 | x, 27, 7) == 7 && decode::field(0x3900_0000u32 | x, 26, 1) == 0 && decode::field(0x3900_0000u32 | x, 22, 3) == 0 && decode::field(0x3900_0000u32 | x, 22, 1) == 0,
        decode::field(0xA940_0000u32 | x, 27, 7) == 5 && decode::field(0xA940_0000u32 | x, 26, 1) == 0 && decode::field(0xA940_0000u32 | x, 22, 3) == 1 && decode::field(0xA940_0000u32 | x, 22, 1) == 1,
        decode::field(0xA900_0000u32 | x, 27, 7) == 5 && decode::field(0xA900_0000u32 | x, 26, 1) == 0 && decode::field(0xA900_0000u32 | x, 22, 3) == 0 && decode::field(0xA900_0000u32 | x, 22, 1) == 0,
        decode::field(0xFD40_0000u32 | x, 27, 7) == 7 && decode::field(0xFD40_0000u32 | x, 26, 1) == 1 && decode::field(0xFD40_0000u32 | x, 22, 3) == 1 && decode::field(0xFD40_0000u32 | x, 22, 1) == 1,
        decode::field(0xFD00_0000u32 | x, 27, 7) == 7 && decode::field(0xFD00_0000u32 | x, 26, 1) == 1 && decode::field(0xFD00_0000u32 | x, 22, 3) == 0 && decode::field(0xFD00_0000u32 | x, 22, 1) == 0,
{
}

} // verus!
