//! Rewrites the program text: every hooked site becomes a branch to a
//! trampoline in `__STUB` that calls the segment's one shared body, which
//! decrements the run's quantum counter and enters the scheduler when it
//! expires, and then performs the original branch or memory access. The
//! trampoline is four to six words; what names the site to the scheduler
//! is the trampoline's return address, which the body leaves on the stack.
//! Big programs hook millions of sites, and every site must reach its
//! trampoline, and the trampoline its target, with one `b` (128 MB either
//! way).
//!
//! The counter and the scheduler slot are not in the image: they live in
//! the fixed region the supervisor sets up at `shared::STUB_BASE`, which
//! the body reaches with one `movz`. A default-linked binary has header
//! room for one new segment but not for a second, writable one, so a
//! rewritten binary only runs with the supervisor injected.

use vstd::prelude::*;
use crate::bytes;
use crate::decode;
use crate::decode::{Class, FP, SP};
use crate::macho;
use crate::macho::MachO;
use crate::rng;
use crate::rng::Rng;
use crate::sorting;
use crate::text;
use crate::trampoline;
use crate::trampoline::{AreaView, Builder, Built, Guard, Hook, Tail};

pub mod events;
pub mod laws;

pub use crate::sites::{sites_from_text, sites_to_text, Site, SiteKind};

verus! {

/// Read-only header at the start of `__STUB`, in front of the stub code.
/// Offsets are stable; the supervisor reads them.
pub const HEADER_MAGIC: u32 = 0;

pub const HEADER_SITES: u32 = 8;

pub const HEADER_MEM_SITES: u32 = 16;

pub const HEADER_SEED: u32 = 24;

pub const HEADER_SIZE: u64 = 32;

/// "RWST003" little-endian
pub const MAGIC: u64 = 0x0033_3030_5453_5752;

/// Symbols the rooms are known by: `_rewrite_room_0`, `_rewrite_room_1`, ...
pub const ROOM_PREFIX: &'static str = "_rewrite_room_";

#[derive(Debug, Clone, Copy)]
pub struct Options {
    pub seed: u64,
    /// Probability of hooking a candidate memory instruction, as a fraction
    pub mem_rate: (u32, u32),
}

impl Default for Options {
    fn default() -> (r: Self)
        ensures
            r.seed == 0,
            r.mem_rate == (0u32, 1u32),
    {
        Options { seed: 0, mem_rate: (0, 1) }
    }
}

/// The fraction a rate stands for: `0`, `1`, or a numerator and a
/// denominator, not zero and not less
pub open spec fn rate_of(s: Seq<char>) -> Option<(u32, u32)> {
    match text::split_at_first(s, '/') {
        Some((a, b)) => match (
            text::unsigned_value(text::trimmed(a), 10, u32::MAX as nat),
            text::unsigned_value(text::trimmed(b), 10, u32::MAX as nat),
        ) {
            (Some(n), Some(d)) => if d > 0 && n <= d {
                Some((n as u32, d as u32))
            } else {
                None
            },
            _ => None,
        },
        None => if text::trimmed(s) == "0"@ {
            Some((0u32, 1u32))
        } else if text::trimmed(s) == "1"@ {
            Some((1u32, 1u32))
        } else {
            None
        },
    }
}

/// Parse `0`, `1`, `1/16`, `3/8` into a fraction
pub fn parse_rate(s: &str) -> (r: Option<(u32, u32)>)
    ensures
        r == rate_of(s@),
{
    let chars = text::chars_of(s);
    match text::split_once(&chars, '/') {
        Some((a, b)) => {
            let n: u64 = match text::parse_unsigned(&text::trim(&a), 10, u32::MAX as u64) {
                Some(n) => n,
                None => {
                    return None;
                },
            };
            let d: u64 = match text::parse_unsigned(&text::trim(&b), 10, u32::MAX as u64) {
                Some(d) => d,
                None => {
                    return None;
                },
            };
            if d > 0 && n <= d {
                Some((n as u32, d as u32))
            } else {
                None
            }
        },
        None => {
            let plain = text::trim(&chars);
            if text::same_chars(&plain, &text::chars_of("0")) {
                Some((0, 1))
            } else if text::same_chars(&plain, &text::chars_of("1")) {
                Some((1, 1))
            } else {
                None
            }
        },
    }
}

#[derive(Debug)]
pub enum Error {
    MachO(macho::Error),
    OutOfRange { site: u64, target: u64 },
}

impl Error {
    pub open spec fn told(self) -> Seq<char> {
        match self {
            Error::MachO(e) => e.told(),
            Error::OutOfRange { site, target } => "branch from "@ + text::hex(site as nat) + " to "@
                + text::hex(target as nat) + " is out of range"@,
        }
    }

    pub fn message(&self) -> (r: String)
        ensures
            r@ == self.told(),
    {
        match self {
            Error::MachO(e) => e.message(),
            Error::OutOfRange { site, target } => {
                let mut out = String::new();
                out.append("branch from ");
                text::push_hex(&mut out, *site);
                out.append(" to ");
                text::push_hex(&mut out, *target);
                out.append(" is out of range");
                assert(out@ =~= self.told());
                out
            },
        }
    }
}

#[derive(Debug)]
pub struct Stats {
    pub functions: usize,
    pub stack_tainted_functions: usize,
    pub words: usize,
    pub branch_sites: usize,
    pub call_sites: usize,
    /// Reads of the CPU's counter register, answered with the virtual clock
    pub counter_sites: usize,
    pub mem_candidates: usize,
    pub mem_sites: usize,
    /// Sites a `b` could not reach from, or a trampoline reach a target
    /// from: left alone (programs of over about 120 MB)
    pub unreachable_sites: usize,
    /// Function-table entries without a symbol, left alone (constant
    /// tables in hand-written assembly)
    pub unnamed_entries: usize,
    pub unnamed_addrs: Vec<u64>,
    /// Rooms the program was linked with, and the trampoline bytes in them
    pub rooms: usize,
    pub room_bytes: u64,
    /// Sites tried, per MB of text from the start of `__text`
    pub sites_per_mb: Vec<u32>,
    pub exclusive_words: usize,
    pub data_in_code_words: usize,
    pub skipped_blr_x30: usize,
    pub stub_bytes: usize,
    /// Addresses of the hooked memory instructions
    pub mem_site_addrs: Vec<u64>,
}

pub struct Rewritten {
    /// Unsigned image; it is to be signed after writing
    pub image: Vec<u8>,
    pub stats: Stats,
    pub sites: Vec<Site>,
}

/// Whether a symbol is defined at `addr`
pub open spec fn is_named(m: MachO, addr: u64) -> bool {
    exists|i: int| 0 <= i < m.listed_symbols().len() && (#[trigger] m.listed_symbols()[i]).0 == addr
}

/// Whether a room begins at `addr`
pub open spec fn is_room(m: MachO, addr: u64) -> bool {
    exists|i: int|
        0 <= i < m.listed_symbols().len() && (#[trigger] m.listed_symbols()[i]).0 == addr
            && ROOM_PREFIX@.is_prefix_of(m.listed_symbols()[i].1)
}

/// How many of the first `n` addresses have a symbol
pub open spec fn count_named(m: MachO, starts: Seq<u64>, n: int) -> int
    decreases n,
{
    if n <= 0 {
        0
    } else {
        count_named(m, starts, n - 1) + (if is_named(m, starts[n - 1]) {
            1int
        } else {
            0
        })
    }
}

/// Whether symbols name at least half of the function table
pub open spec fn mostly_named(m: MachO, starts: Seq<u64>) -> bool {
    2 * count_named(m, starts, starts.len() as int) >= starts.len()
}

/// The function table sorted out: what to hook, what was passed over, and
/// the rooms the program was linked with, which hold nothing yet and are the
/// rewriter's to fill
pub struct Sorted {
    pub functions: Seq<(u64, u64)>,
    pub unnamed: Seq<u64>,
    pub rooms: Seq<(u64, u64)>,
}

/// Where the entry after number `i` of the table begins, or the text ends
pub open spec fn entry_end(starts: Seq<u64>, i: int, end: u64) -> u64 {
    if i + 1 < starts.len() && starts[i + 1] < end {
        starts[i + 1]
    } else {
        end
    }
}

/// The first `n` entries of the table sorted out. An entry without a symbol
/// is an atom the assembler made without a name: a constant table in
/// hand-written assembly, which the table lists like a function. Compiled
/// functions always have a symbol while the file has any, so such entries
/// are left alone when symbols name at least half of the table; a stripped
/// file hooks everything.
pub open spec fn sorted_out(m: MachO, starts: Seq<u64>, from: u64, end: u64, n: int) -> Sorted
    decreases n,
{
    if n <= 0 {
        Sorted { functions: Seq::empty(), unnamed: Seq::empty(), rooms: Seq::empty() }
    } else {
        let before = sorted_out(m, starts, from, end, n - 1);
        let s = starts[n - 1];
        let e = entry_end(starts, n - 1, end);
        if s < from || s >= end {
            before
        } else if mostly_named(m, starts) && !is_named(m, s) {
            Sorted { unnamed: before.unnamed.push(s), ..before }
        } else if e <= s {
            before
        } else if is_room(m, s) {
            Sorted { rooms: before.rooms.push((s, e)), ..before }
        } else {
            Sorted { functions: before.functions.push((s, e)), ..before }
        }
    }
}

/// The function table of `m` sorted out
pub open spec fn table_of(m: MachO) -> Sorted {
    let t = m.text().unwrap();
    let starts = m.starts().unwrap();
    sorted_out(m, starts, t.addr, t.addr.wrapping_add(t.size), starts.len() as int)
}

struct Ranges {
    functions: Vec<(u64, u64)>,
    unnamed_addrs: Vec<u64>,
    rooms: Vec<(u64, u64)>,
}

impl View for Ranges {
    type V = Sorted;

    closed spec fn view(&self) -> Sorted {
        Sorted { functions: self.functions@, unnamed: self.unnamed_addrs@, rooms: self.rooms@ }
    }
}

spec fn symbols_sorted(symbols: Seq<(u64, String)>) -> bool {
    forall|i: int, j: int|
        0 <= i <= j < symbols.len() ==> (#[trigger] symbols[i]).0 <= (#[trigger] symbols[j]).0
}

spec fn named_in(symbols: Seq<(u64, String)>, addr: u64) -> bool {
    exists|i: int| 0 <= i < symbols.len() && (#[trigger] symbols[i]).0 == addr
}

spec fn room_in(symbols: Seq<(u64, String)>, addr: u64) -> bool {
    exists|i: int|
        0 <= i < symbols.len() && (#[trigger] symbols[i]).0 == addr && ROOM_PREFIX@.is_prefix_of(
            symbols[i].1@,
        )
}

proof fn lemma_symbols(m: MachO, symbols: Seq<(u64, String)>)
    requires
        m.symbols_are(symbols),
    ensures
        symbols_sorted(symbols),
        forall|a: u64| #[trigger] named_in(symbols, a) == is_named(m, a),
        forall|a: u64| #[trigger] room_in(symbols, a) == is_room(m, a),
{
    let listed = m.listed_symbols();
    let order = choose|order: Seq<int>| #[trigger] m.symbols_ordered(symbols, order);
    let keys = listed.map_values(|e: (u64, Seq<char>)| e.0);
    assert forall|i: int, j: int| 0 <= i <= j < symbols.len() implies (#[trigger] symbols[i]).0 <= (
    #[trigger] symbols[j]).0 by {
        if i < j {
            assert(keys[order[i]] <= keys[order[j]]);
        }
    }
    assert forall|a: u64| #[trigger] named_in(symbols, a) == is_named(m, a) by {
        if named_in(symbols, a) {
            let i = choose|i: int| 0 <= i < symbols.len() && (#[trigger] symbols[i]).0 == a;
            assert(listed[order[i]].0 == a);
        }
        if is_named(m, a) {
            let k = choose|k: int| 0 <= k < listed.len() && (#[trigger] listed[k]).0 == a;
            sorting::lemma_permutes_onto(order, listed.len() as int, k);
            let i = choose|i: int| 0 <= i < order.len() && order[i] == k;
            assert(symbols[i].0 == a);
        }
    }
    assert forall|a: u64| #[trigger] room_in(symbols, a) == is_room(m, a) by {
        if room_in(symbols, a) {
            let i = choose|i: int|
                0 <= i < symbols.len() && (#[trigger] symbols[i]).0 == a
                    && ROOM_PREFIX@.is_prefix_of(symbols[i].1@);
            assert(listed[order[i]].0 == a);
        }
        if is_room(m, a) {
            let k = choose|k: int|
                0 <= k < listed.len() && (#[trigger] listed[k]).0 == a && ROOM_PREFIX@.is_prefix_of(
                    listed[k].1,
                );
            sorting::lemma_permutes_onto(order, listed.len() as int, k);
            let i = choose|i: int| 0 <= i < order.len() && order[i] == k;
            assert(symbols[i].0 == a);
        }
    }
}

/// The first symbol at or above `addr`
fn lower_bound(symbols: &Vec<(u64, String)>, addr: u64) -> (r: usize)
    requires
        symbols_sorted(symbols@),
    ensures
        r <= symbols.len(),
        forall|i: int| 0 <= i < r ==> (#[trigger] symbols@[i]).0 < addr,
        forall|i: int| r <= i < symbols.len() ==> (#[trigger] symbols@[i]).0 >= addr,
{
    let mut lo: usize = 0;
    let mut hi: usize = symbols.len();
    while lo < hi
        invariant
            lo <= hi <= symbols.len(),
            symbols_sorted(symbols@),
            forall|i: int| 0 <= i < lo ==> (#[trigger] symbols@[i]).0 < addr,
            forall|i: int| hi <= i < symbols.len() ==> (#[trigger] symbols@[i]).0 >= addr,
        decreases hi - lo,
    {
        let mid: usize = lo + (hi - lo) / 2;
        if symbols[mid].0 < addr {
            lo = mid + 1;
        } else {
            hi = mid;
        }
    }
    lo
}

fn has_name(symbols: &Vec<(u64, String)>, addr: u64) -> (r: bool)
    requires
        symbols_sorted(symbols@),
    ensures
        r == named_in(symbols@, addr),
{
    let i: usize = lower_bound(symbols, addr);
    i < symbols.len() && symbols[i].0 == addr
}

fn begins_room(symbols: &Vec<(u64, String)>, addr: u64) -> (r: bool)
    requires
        symbols_sorted(symbols@),
    ensures
        r == room_in(symbols@, addr),
{
    let first: usize = lower_bound(symbols, addr);
    let mut i: usize = first;
    while i < symbols.len() && symbols[i].0 == addr
        invariant
            first <= i <= symbols.len(),
            forall|k: int| 0 <= k < first ==> (#[trigger] symbols@[k]).0 < addr,
            forall|k: int|
                first <= k < i ==> !ROOM_PREFIX@.is_prefix_of((#[trigger] symbols@[k]).1@),
        decreases symbols.len() - i,
    {
        if text::starts_with(&text::chars_of(symbols[i].1.as_str()), ROOM_PREFIX) {
            return true;
        }
        i += 1;
    }
    proof {
        if room_in(symbols@, addr) {
            let k = choose|k: int|
                0 <= k < symbols.len() && (#[trigger] symbols@[k]).0 == addr
                    && ROOM_PREFIX@.is_prefix_of(symbols@[k].1@);
            assert(k >= i);
            assert(symbols@[i as int].0 <= symbols@[k].0);
            assert(first <= i < symbols.len());
        }
    }
    false
}

/// The functions to hook, the entries passed over and the rooms
fn function_ranges(m: &MachO) -> (r: Result<Ranges, macho::Error>)
    ensures
        match r {
            Ok(v) => m.text() is Some && m.starts() is Some && v@ == table_of(*m),
            Err(e) => if m.text() is None {
                m.text_missing(e)
            } else {
                m.starts() is None && m.starts_error(e)
            },
        },
{
    let t = match m.text_section() {
        Ok(t) => t,
        Err(e) => {
            return Err(e);
        },
    };
    let from: u64 = t.addr;
    let end: u64 = t.addr.wrapping_add(t.size);
    let starts = match m.function_starts() {
        Ok(starts) => starts,
        Err(e) => {
            return Err(e);
        },
    };
    let symbols = m.symbols();
    proof {
        lemma_symbols(*m, symbols@);
    }
    let n: usize = starts.len();
    let mut named: usize = 0;
    let mut k: usize = 0;
    while k < n
        invariant
            k <= n == starts.len(),
            named == count_named(*m, starts@, k as int),
            named <= k,
            symbols_sorted(symbols@),
            forall|a: u64| #[trigger] named_in(symbols@, a) == is_named(*m, a),
        decreases n - k,
    {
        if has_name(&symbols, starts[k]) {
            assert(is_named(*m, starts@[k as int]));
            named += 1;
        }
        k += 1;
    }
    let mostly = named >= n - named;
    let mut out = Ranges { functions: Vec::new(), unnamed_addrs: Vec::new(), rooms: Vec::new() };
    let mut i: usize = 0;
    assert(out@.functions =~= Seq::empty());
    assert(out@.unnamed =~= Seq::empty());
    assert(out@.rooms =~= Seq::empty());
    while i < n
        invariant
            i <= n == starts.len(),
            mostly == mostly_named(*m, starts@),
            symbols_sorted(symbols@),
            forall|a: u64| #[trigger] named_in(symbols@, a) == is_named(*m, a),
            forall|a: u64| #[trigger] room_in(symbols@, a) == is_room(*m, a),
            out@ == sorted_out(*m, starts@, from, end, i as int),
        decreases n - i,
    {
        let s: u64 = starts[i];
        let e: u64 = if i + 1 < n && starts[i + 1] < end {
            starts[i + 1]
        } else {
            end
        };
        if s >= from && s < end {
            if mostly && !has_name(&symbols, s) {
                assert(!is_named(*m, s));
                out.unnamed_addrs.push(s);
            } else if e > s {
                assert(!(mostly && !is_named(*m, s)));
                if begins_room(&symbols, s) {
                    assert(is_room(*m, s));
                    out.rooms.push((s, e));
                } else {
                    assert(!is_room(*m, s));
                    out.functions.push((s, e));
                }
            }
        }
        i += 1;
    }
    Ok(out)
}

/// The word at `addr`; zero where the file holds none
pub open spec fn word(m: MachO, addr: u64) -> u32 {
    match m.word_at(addr) {
        Some(w) => w,
        None => 0,
    }
}

pub open spec fn class(m: MachO, addr: u64) -> Class {
    decode::class_of(word(m, addr), addr)
}

/// Whether an exclusive span is open in front of word `i` of the function
/// at `start`
pub open spec fn span_open(m: MachO, start: u64, i: int) -> bool
    decreases i,
{
    if i <= 0 {
        false
    } else {
        match class(m, trampoline::word_addr(start, i - 1)) {
            Class::ExclusiveLoad => true,
            Class::ExclusiveStore => false,
            _ => span_open(m, start, i - 1),
        }
    }
}

/// Whether the instruction is a branch that a retry loop may close with
pub open spec fn may_retry(c: Class) -> bool {
    c is B || c is BCond || c is Cbz || c is Tbz
}

/// Whether word `i` is the branch right after an exclusive store. Whether
/// the store succeeded is the hardware's whim, and so is this branch.
pub open spec fn retries(m: MachO, start: u64, i: int) -> bool {
    &&& i > 0
    &&& class(m, trampoline::word_addr(start, i - 1)) is ExclusiveStore
    &&& may_retry(class(m, trampoline::word_addr(start, i)))
}

/// Words inside an `ldxr` to `stxr` span, the two included, are never
/// touched, nor is the branch right after the store.
pub open spec fn in_span(m: MachO, start: u64, i: int) -> bool {
    let c = class(m, trampoline::word_addr(start, i));
    c is ExclusiveLoad || c is ExclusiveStore || span_open(m, start, i) || retries(m, start, i)
}

/// Whether the function hands out a stack address
pub open spec fn hands_out_stack(m: MachO, start: u64, n: int) -> bool {
    exists|i: int| 0 <= i < n && class(m, #[trigger] trampoline::word_addr(start, i)) is StackAddr
}

/// Whether the file marks `pc` as data in the code
pub open spec fn is_data(m: MachO, pc: u64) -> bool {
    exists|k: int|
        0 <= k < m.code_data().len() && (#[trigger] m.code_data()[k]).0 <= pc
            < m.code_data()[k].0.wrapping_add(m.code_data()[k].1 as u64)
}

/// How the instruction at `pc` is hooked, memory accesses apart: backward
/// branches, calls, indirect jumps and counter reads are. A call through x30
/// is not, nor a counter read into x29 or above, which none is in practice.
pub open spec fn hook_of(c: Class, pc: u64) -> Option<Hook> {
    match c {
        Class::B { target } => if target <= pc {
            // Not an island even out of its function: hand-written assembly
            // jumps between what the function table calls functions with x16
            // live, and a tail call is not told from that
            Some(Hook::Stub { guard: Guard::Always, call: false, tail: Tail::Jump { target, island: false } })
        } else {
            None
        },
        Class::Bl { target } => Some(
            Hook::Stub { guard: Guard::Always, call: true, tail: Tail::Jump { target, island: true } },
        ),
        Class::Blr { rn } => if rn == 30 {
            None
        } else {
            Some(Hook::Stub { guard: Guard::Always, call: true, tail: Tail::Indirect(rn) })
        },
        Class::Br { rn } => Some(
            Hook::Stub { guard: Guard::Always, call: false, tail: Tail::Indirect(rn) },
        ),
        Class::BCond { cond, target } => if target <= pc {
            Some(
                Hook::Stub {
                    guard: Guard::Cond(cond),
                    call: false,
                    tail: Tail::Jump { target, island: false },
                },
            )
        } else {
            None
        },
        Class::Cbz { sf, rt, nonzero, target } => if target <= pc {
            Some(
                Hook::Stub {
                    guard: Guard::Cbz { sf, rt, nonzero },
                    call: false,
                    tail: Tail::Jump { target, island: false },
                },
            )
        } else {
            None
        },
        Class::Tbz { rt, bit, nonzero, target } => if target <= pc {
            Some(
                Hook::Stub {
                    guard: Guard::Tbz { rt, bit, nonzero },
                    call: false,
                    tail: Tail::Jump { target, island: false },
                },
            )
        } else {
            None
        },
        Class::Counter { rt } => if rt < 29 {
            Some(Hook::Counter { rt })
        } else {
            None
        },
        _ => None,
    }
}

fn hook_for(c: Class, pc: u64) -> (r: Option<Hook>)
    ensures
        r == hook_of(c, pc),
{
    match c {
        Class::B { target } => if target <= pc {
            Some(Hook::Stub { guard: Guard::Always, call: false, tail: Tail::Jump { target, island: false } })
        } else {
            None
        },
        Class::Bl { target } => Some(
            Hook::Stub { guard: Guard::Always, call: true, tail: Tail::Jump { target, island: true } },
        ),
        Class::Blr { rn } => if rn == 30 {
            None
        } else {
            Some(Hook::Stub { guard: Guard::Always, call: true, tail: Tail::Indirect(rn) })
        },
        Class::Br { rn } => Some(
            Hook::Stub { guard: Guard::Always, call: false, tail: Tail::Indirect(rn) },
        ),
        Class::BCond { cond, target } => if target <= pc {
            Some(
                Hook::Stub {
                    guard: Guard::Cond(cond),
                    call: false,
                    tail: Tail::Jump { target, island: false },
                },
            )
        } else {
            None
        },
        Class::Cbz { sf, rt, nonzero, target } => if target <= pc {
            Some(
                Hook::Stub {
                    guard: Guard::Cbz { sf, rt, nonzero },
                    call: false,
                    tail: Tail::Jump { target, island: false },
                },
            )
        } else {
            None
        },
        Class::Tbz { rt, bit, nonzero, target } => if target <= pc {
            Some(
                Hook::Stub {
                    guard: Guard::Tbz { rt, bit, nonzero },
                    call: false,
                    tail: Tail::Jump { target, island: false },
                },
            )
        } else {
            None
        },
        Class::Counter { rt } => if rt < 29 {
            Some(Hook::Counter { rt })
        } else {
            None
        },
        _ => None,
    }
}

/// What is counted on the way
#[derive(Clone, Copy)]
pub struct Counts {
    pub functions: usize,
    pub stack_tainted: usize,
    pub words: usize,
    pub branch_sites: usize,
    pub call_sites: usize,
    pub counter_sites: usize,
    pub mem_candidates: usize,
    pub mem_sites: usize,
    pub exclusive_words: usize,
    pub data_in_code_words: usize,
    pub skipped_blr_x30: usize,
}

impl Counts {
    pub open spec fn none() -> Counts {
        Counts {
            functions: 0,
            stack_tainted: 0,
            words: 0,
            branch_sites: 0,
            call_sites: 0,
            counter_sites: 0,
            mem_candidates: 0,
            mem_sites: 0,
            exclusive_words: 0,
            data_in_code_words: 0,
            skipped_blr_x30: 0,
        }
    }
}

/// The rewriter on its way through the text
pub struct Work {
    pub built: Built,
    pub rng: Seq<u64>,
    pub counts: Counts,
    pub mem_site_addrs: Seq<u64>,
}

/// With the hook at `pc`, if an area takes it; a counter read does not count
/// in its megabyte
pub open spec fn base_for(b: Built, hook: Hook, pc: u64) -> Built {
    match hook {
        Hook::Stub { guard: _, call: _, tail: _ } => b.tried(pc),
        Hook::Counter { rt: _ } => b,
    }
}

/// One more site of the hook's kind
pub open spec fn counted(c: Counts, hook: Hook) -> Counts {
    match hook {
        Hook::Stub { guard: _, call, tail: _ } => if call {
            Counts { call_sites: c.call_sites.wrapping_add(1), ..c }
        } else {
            Counts { branch_sites: c.branch_sites.wrapping_add(1), ..c }
        },
        Hook::Counter { rt: _ } => Counts { counter_sites: c.counter_sites.wrapping_add(1), ..c },
    }
}

impl Work {
    /// After the branch, call or counter read at `pc`
    pub open spec fn with_hook(self, hook: Hook, pc: u64) -> Work {
        let b = base_for(self.built, hook, pc);
        Work {
            built: b.hooked(hook, pc),
            counts: if b.reaches(hook, pc) {
                counted(self.counts, hook)
            } else {
                self.counts
            },
            ..self
        }
    }

    /// After the load or store `w` at `pc`, a candidate: the draw decides
    pub open spec fn with_access(self, rate: (u32, u32), w: u32, pc: u64) -> Work {
        let counts = Counts {
            mem_candidates: self.counts.mem_candidates.wrapping_add(1),
            ..self.counts
        };
        if rate.0 == 0 {
            Work { counts, ..self }
        } else {
            let drawn = Work { counts, rng: rng::advanced(self.rng), ..self };
            if rng::scaled(rng::output(self.rng), rate.1 as u64) < rate.0 {
                let hook = Hook::Stub {
                    guard: Guard::Always,
                    call: false,
                    tail: Tail::Replay(w),
                };
                let b = self.built.tried(pc);
                if b.reaches(hook, pc) {
                    Work {
                        built: b.hooked(hook, pc),
                        counts: Counts { mem_sites: counts.mem_sites.wrapping_add(1), ..counts },
                        mem_site_addrs: self.mem_site_addrs.push(pc),
                        ..drawn
                    }
                } else {
                    Work { built: b.hooked(hook, pc), ..drawn }
                }
            } else {
                drawn
            }
        }
    }

    /// After word `i` of the function of `n` words at `start`
    pub open spec fn with_word(self, m: MachO, rate: (u32, u32), start: u64, n: int, i: int) -> Work {
        let pc = trampoline::word_addr(start, i);
        let counts = Counts { words: self.counts.words.wrapping_add(1), ..self.counts };
        let w = Work { counts, ..self };
        if is_data(m, pc) {
            Work {
                counts: Counts {
                    data_in_code_words: counts.data_in_code_words.wrapping_add(1),
                    ..counts
                },
                ..w
            }
        } else if in_span(m, start, i) {
            Work {
                counts: Counts { exclusive_words: counts.exclusive_words.wrapping_add(1), ..counts },
                ..w
            }
        } else {
            match class(m, pc) {
                Class::Mem { base } => if (base == SP || base == FP) && !hands_out_stack(m, start, n) {
                    w
                } else {
                    w.with_access(rate, word(m, pc), pc)
                },
                Class::Blr { rn } if rn == 30 => Work {
                    counts: Counts {
                        skipped_blr_x30: counts.skipped_blr_x30.wrapping_add(1),
                        ..counts
                    },
                    ..w
                },
                c => match hook_of(c, pc) {
                    Some(hook) => w.with_hook(hook, pc),
                    None => w,
                },
            }
        }
    }

    /// After the first `i` words of that function
    pub open spec fn with_words(self, m: MachO, rate: (u32, u32), start: u64, n: int, i: int) -> Work
        decreases i,
    {
        if i <= 0 {
            self
        } else {
            self.with_words(m, rate, start, n, i - 1).with_word(m, rate, start, n, i - 1)
        }
    }

    /// After the function from `start` to `end`
    pub open spec fn with_function(self, m: MachO, rate: (u32, u32), start: u64, end: u64) -> Work {
        let n = (end - start) / 4;
        let counts = Counts {
            functions: self.counts.functions.wrapping_add(1),
            stack_tainted: if hands_out_stack(m, start, n) {
                self.counts.stack_tainted.wrapping_add(1)
            } else {
                self.counts.stack_tainted
            },
            ..self.counts
        };
        (Work { counts, ..self }).with_words(m, rate, start, n, n)
    }

    /// After the first `k` functions
    pub open spec fn with_functions(self, m: MachO, rate: (u32, u32), fns: Seq<(u64, u64)>, k: int) -> Work
        decreases k,
    {
        if k <= 0 {
            self
        } else {
            self.with_functions(m, rate, fns, k - 1).with_function(
                m,
                rate,
                fns[k - 1].0,
                fns[k - 1].1,
            )
        }
    }
}

/// Where the stub code begins
pub open spec fn code_base(m: MachO) -> u64 {
    m.stub_place().unwrap().vmaddr.wrapping_add(HEADER_SIZE)
}

/// The rewriter after the whole text of `m`
pub open spec fn worked(m: MachO, opts: Options) -> Work {
    let table = table_of(m);
    (Work {
        built: Built::fresh(code_base(m), table.rooms, m.text().unwrap().addr),
        rng: rng::expanded(opts.seed),
        counts: Counts::none(),
        mem_site_addrs: Seq::empty(),
    }).with_functions(m, opts.mem_rate, table.functions, table.functions.len() as int)
}

/// The bytes of the first `n` words
pub open spec fn word_bytes(words: Seq<u32>, n: int) -> Seq<u8>
    decreases n,
{
    if n <= 0 {
        Seq::empty()
    } else {
        word_bytes(words, n - 1) + bytes::le32(words[n - 1])
    }
}

/// The contents of `__STUB`: the header, then the segment's code
pub open spec fn stub_text(w: Work, seed: u64) -> Seq<u8> {
    let code = w.built.areas[0].code;
    bytes::le64(MAGIC) + bytes::le64(w.built.sites.len() as u64) + bytes::le64(
        w.counts.mem_sites as u64,
    ) + bytes::le64(seed) + word_bytes(code, code.len() as int)
}

/// The first `n` words of an area as text patches
pub open spec fn area_patches(a: AreaView, n: int) -> Seq<(u64, u32)> {
    Seq::new(n as nat, |i: int| (trampoline::word_addr(a.base, i), a.code[i]))
}

/// A room's trampolines are text patches like the sites' own.
pub open spec fn room_patches(areas: Seq<AreaView>, k: int) -> Seq<(u64, u32)>
    decreases k,
{
    if k <= 1 {
        Seq::empty()
    } else {
        room_patches(areas, k - 1) + area_patches(areas[k - 1], areas[k - 1].code.len() as int)
    }
}

/// The bytes of trampolines in the first `k` areas but the segment
pub open spec fn room_bytes(areas: Seq<AreaView>, k: int) -> u64
    decreases k,
{
    if k <= 1 {
        0
    } else {
        room_bytes(areas, k - 1).wrapping_add(
            (4 * areas[k - 1].code.len() as int % 0x1_0000_0000_0000_0000) as u64,
        )
    }
}

/// Every patch of the text: the sites', then the rooms'
pub open spec fn all_patches(w: Work) -> Seq<(u64, u32)> {
    w.built.patches + room_patches(w.built.areas, w.built.areas.len() as int)
}

impl Stats {
    /// Whether this is what the work counted
    pub open spec fn tells(self, m: MachO, opts: Options) -> bool {
        let w = worked(m, opts);
        let table = table_of(m);
        &&& self.functions == w.counts.functions
        &&& self.stack_tainted_functions == w.counts.stack_tainted
        &&& self.words == w.counts.words
        &&& self.branch_sites == w.counts.branch_sites
        &&& self.call_sites == w.counts.call_sites
        &&& self.counter_sites == w.counts.counter_sites
        &&& self.mem_candidates == w.counts.mem_candidates
        &&& self.mem_sites == w.counts.mem_sites
        &&& self.unreachable_sites == w.built.unreachable
        &&& self.unnamed_entries == table.unnamed.len()
        &&& self.unnamed_addrs@ == table.unnamed
        &&& self.rooms == table.rooms.len()
        &&& self.room_bytes == room_bytes(w.built.areas, w.built.areas.len() as int)
        &&& self.sites_per_mb@ == w.built.buckets
        &&& self.exclusive_words == w.counts.exclusive_words
        &&& self.data_in_code_words == w.counts.data_in_code_words
        &&& self.skipped_blr_x30 == w.counts.skipped_blr_x30
        &&& self.stub_bytes == stub_text(w, opts.seed).len()
        &&& self.mem_site_addrs@ == w.mem_site_addrs
    }
}

/// Whether the image would be longer than can be counted
pub open spec fn too_large(m: MachO, opts: Options) -> bool {
    m.data@.len() + stub_text(worked(m, opts), opts.seed).len() + 0x1_0000 > usize::MAX
}

/// What the rewriter answers
pub open spec fn rewrites(m: MachO, opts: Options, r: Result<Rewritten, Error>) -> bool {
    if m.stub_place() is None {
        r matches Err(Error::MachO(e)) && m.layout_error(e)
    } else if m.text() is None {
        r matches Err(Error::MachO(e)) && m.text_missing(e)
    } else if m.starts() is None {
        r matches Err(Error::MachO(e)) && m.starts_error(e)
    } else if too_large(m, opts) {
        r matches Err(Error::MachO(macho::Error::BadLayout(s))) && s@ == "the image is too large"@
    } else {
        let w = worked(m, opts);
        match r {
            Ok(done) => m.emits_stub(all_patches(w), stub_text(w, opts.seed), Ok(done.image))
                && done.stats.tells(m, opts) && done.sites@ == w.built.sites,
            Err(Error::MachO(e)) => m.emits_stub(all_patches(w), stub_text(w, opts.seed), Err(e)),
            Err(_) => false,
        }
    }
}

struct Worker {
    builder: Builder,
    rng: Rng,
    counts: Counts,
    mem_site_addrs: Vec<u64>,
}

impl View for Worker {
    type V = Work;

    closed spec fn view(&self) -> Work {
        Work {
            built: self.builder@,
            rng: self.rng@,
            counts: self.counts,
            mem_site_addrs: self.mem_site_addrs@,
        }
    }
}

impl Worker {
    fn hook(&mut self, hook: Hook, pc: u64)
        requires
            trampoline::bucket_of(old(self)@.built.text_base, pc) < usize::MAX,
        ensures
            final(self)@ == old(self)@.with_hook(hook, pc),
            final(self)@.built.text_base == old(self)@.built.text_base,
    {
        match hook {
            Hook::Stub { guard, call, tail } => {
                if self.builder.stub(pc, guard, call, tail) {
                    if call {
                        self.counts.call_sites = self.counts.call_sites.wrapping_add(1);
                    } else {
                        self.counts.branch_sites = self.counts.branch_sites.wrapping_add(1);
                    }
                }
            },
            Hook::Counter { rt } => {
                if self.builder.counter_stub(pc, rt) {
                    self.counts.counter_sites = self.counts.counter_sites.wrapping_add(1);
                }
            },
        }
    }

    fn access(&mut self, rate: (u32, u32), w: u32, pc: u64)
        requires
            trampoline::bucket_of(old(self)@.built.text_base, pc) < usize::MAX,
            rate.0 != 0 ==> rate.1 > 0,
        ensures
            final(self)@ == old(self)@.with_access(rate, w, pc),
            final(self)@.built.text_base == old(self)@.built.text_base,
    {
        self.counts.mem_candidates = self.counts.mem_candidates.wrapping_add(1);
        if rate.0 == 0 {
            return;
        }
        let roll: u64 = self.rng.below(rate.1 as u64);
        if roll < rate.0 as u64 {
            if self.builder.stub(pc, Guard::Always, false, Tail::Replay(w)) {
                self.counts.mem_sites = self.counts.mem_sites.wrapping_add(1);
                self.mem_site_addrs.push(pc);
            }
        }
    }
}

/// Ranges that are not empty and lie between `from` and `end`
spec fn inside(ranges: Seq<(u64, u64)>, from: u64, end: u64) -> bool {
    forall|k: int|
        0 <= k < ranges.len() ==> from <= (#[trigger] ranges[k]).0 < ranges[k].1 <= end
}

/// The functions to hook and the rooms lie in the text.
proof fn lemma_functions_inside(m: MachO, starts: Seq<u64>, from: u64, end: u64, n: int)
    ensures
        inside(sorted_out(m, starts, from, end, n).functions, from, end),
        inside(sorted_out(m, starts, from, end, n).rooms, from, end),
    decreases n,
{
    if n > 0 {
        lemma_functions_inside(m, starts, from, end, n - 1);
    }
}

fn word_or_zero(m: &MachO, addr: u64) -> (r: u32)
    ensures
        r == word(*m, addr),
{
    match m.read_word(addr) {
        Some(w) => w,
        None => 0,
    }
}

/// Whether the function of `n` words at `start` hands out a stack address
fn is_tainted(m: &MachO, start: u64, n: u64) -> (r: bool)
    requires
        start + 4 * n <= u64::MAX,
    ensures
        r == hands_out_stack(*m, start, n as int),
{
    let mut i: u64 = 0;
    while i < n
        invariant
            i <= n,
            start + 4 * n <= u64::MAX,
            forall|k: int|
                0 <= k < i ==> !(class(*m, #[trigger] trampoline::word_addr(start, k)) is StackAddr),
        decreases n - i,
    {
        let pc: u64 = start + 4 * i;
        assert(pc == trampoline::word_addr(start, i as int));
        if let Class::StackAddr = decode::decode(word_or_zero(m, pc), pc) {
            return true;
        }
        i += 1;
    }
    false
}

fn marked_data(data: &Vec<(u64, u16, u16)>, pc: u64) -> (r: bool)
    ensures
        r == (exists|k: int|
            0 <= k < data.len() && (#[trigger] data@[k]).0 <= pc < data@[k].0.wrapping_add(
                data@[k].1 as u64,
            )),
{
    let mut k: usize = 0;
    while k < data.len()
        invariant
            k <= data.len(),
            forall|j: int|
                0 <= j < k ==> !((#[trigger] data@[j]).0 <= pc < data@[j].0.wrapping_add(
                    data@[j].1 as u64,
                )),
        decreases data.len() - k,
    {
        let (a, len, _) = data[k];
        if pc >= a && pc < a.wrapping_add(len as u64) {
            return true;
        }
        k += 1;
    }
    false
}

impl Worker {
    /// Hook the function from `start` to `end`.
    fn function(
        &mut self,
        m: &MachO,
        data: &Vec<(u64, u16, u16)>,
        rate: (u32, u32),
        start: u64,
        end: u64,
    )
        requires
            data@ == m.code_data(),
            rate.0 != 0 ==> rate.1 > 0,
            old(self)@.built.text_base <= start < end,
            (end - old(self)@.built.text_base) / 0x10_0000 < usize::MAX,
        ensures
            final(self)@ == old(self)@.with_function(*m, rate, start, end),
            final(self)@.built.text_base == old(self)@.built.text_base,
    {
        let n: u64 = (end - start) / 4;
        let tainted = is_tainted(m, start, n);
        self.counts.functions = self.counts.functions.wrapping_add(1);
        if tainted {
            self.counts.stack_tainted = self.counts.stack_tainted.wrapping_add(1);
        }
        let ghost begun = self@;
        let mut open = false;
        let mut stored = false;
        let mut i: u64 = 0;
        while i < n
            invariant
                i <= n,
                n == (end - start) / 4,
                data@ == m.code_data(),
                rate.0 != 0 ==> rate.1 > 0,
                begun.built.text_base <= start < end,
                (end - begun.built.text_base) / 0x10_0000 < usize::MAX,
                self@.built.text_base == begun.built.text_base,
                tainted == hands_out_stack(*m, start, n as int),
                open == span_open(*m, start, i as int),
                stored == (i > 0 && class(*m, trampoline::word_addr(start, i - 1)) is ExclusiveStore),
                self@ == begun.with_words(*m, rate, start, n as int, i as int),
            decreases n - i,
        {
            let pc: u64 = start + 4 * i;
            assert(pc == trampoline::word_addr(start, i as int));
            let ghost before = self@;
            let w: u32 = word_or_zero(m, pc);
            let c = decode::decode(w, pc);
            self.counts.words = self.counts.words.wrapping_add(1);
            let spanned = match c {
                Class::ExclusiveLoad => true,
                Class::ExclusiveStore => true,
                Class::B { target: _ } => open || stored,
                Class::BCond { cond: _, target: _ } => open || stored,
                Class::Cbz { sf: _, rt: _, nonzero: _, target: _ } => open || stored,
                Class::Tbz { rt: _, bit: _, nonzero: _, target: _ } => open || stored,
                _ => open,
            };
            open = match c {
                Class::ExclusiveLoad => true,
                Class::ExclusiveStore => false,
                _ => open,
            };
            stored = matches!(c, Class::ExclusiveStore);
            if marked_data(data, pc) {
                assert(is_data(*m, pc));
                self.counts.data_in_code_words = self.counts.data_in_code_words.wrapping_add(1);
            } else if spanned {
                assert(!is_data(*m, pc));
                self.counts.exclusive_words = self.counts.exclusive_words.wrapping_add(1);
            } else {
                assert(!is_data(*m, pc));
                assert(!in_span(*m, start, i as int));
                match c {
                    Class::Mem { base } => {
                        if !((base == SP || base == FP) && !tainted) {
                            self.access(rate, w, pc);
                        }
                    },
                    Class::Blr { rn } if rn == 30 => {
                        self.counts.skipped_blr_x30 = self.counts.skipped_blr_x30.wrapping_add(1);
                    },
                    _ => {
                        match hook_for(c, pc) {
                            Some(hook) => {
                                self.hook(hook, pc);
                            },
                            None => {},
                        }
                    },
                }
            }
            assert(self@ == before.with_word(*m, rate, start, n as int, i as int));
            i += 1;
        }
    }
}

fn push_words(out: &mut Vec<u8>, words: &Vec<u32>)
    ensures
        final(out)@ == old(out)@ + word_bytes(words@, words.len() as int),
{
    let mut i: usize = 0;
    assert(out@ =~= old(out)@ + word_bytes(words@, 0));
    while i < words.len()
        invariant
            i <= words.len(),
            out@ == old(out)@ + word_bytes(words@, i as int),
        decreases words.len() - i,
    {
        let ghost before = out@;
        let b = bytes::bytes32(words[i]);
        out.extend_from_slice(b.as_slice());
        i += 1;
        assert(out@ =~= old(out)@ + word_bytes(words@, i as int));
    }
}

fn push_number(out: &mut Vec<u8>, v: u64)
    ensures
        final(out)@ == old(out)@ + bytes::le64(v),
{
    let low = bytes::bytes32((v % 0x1_0000_0000) as u32);
    let high = bytes::bytes32((v / 0x1_0000_0000) as u32);
    out.extend_from_slice(low.as_slice());
    out.extend_from_slice(high.as_slice());
    assert(out@ =~= old(out)@ + bytes::le64(v));
}

/// Go through the text of `m`.
fn work_through(m: &MachO, opts: &Options, base: u64, ranges: &Ranges, text_base: u64) -> (r: Worker)
    requires
        opts.mem_rate.0 != 0 ==> opts.mem_rate.1 > 0,
        m.stub_place() is Some,
        base == code_base(*m),
        m.text() matches Some(t) && t.size / 0x10_0000 < usize::MAX && text_base == t.addr,
        m.starts() is Some,
        ranges@ == table_of(*m),
    ensures
        r@ == worked(*m, *opts),
        r@.built.areas.len() > 0,
{
    let ghost t = m.text().unwrap();
    proof {
        let starts = m.starts().unwrap();
        lemma_functions_inside(*m, starts, t.addr, t.addr.wrapping_add(t.size), starts.len() as int);
    }
    let mut w = Worker {
        builder: Builder::new(base, &ranges.rooms, text_base),
        rng: Rng::seed_from_u64(opts.seed),
        counts: Counts {
            functions: 0,
            stack_tainted: 0,
            words: 0,
            branch_sites: 0,
            call_sites: 0,
            counter_sites: 0,
            mem_candidates: 0,
            mem_sites: 0,
            exclusive_words: 0,
            data_in_code_words: 0,
            skipped_blr_x30: 0,
        },
        mem_site_addrs: Vec::new(),
    };
    let ghost begun = w@;
    assert(w@.mem_site_addrs =~= Seq::empty());
    let data = m.data_in_code();
    let mut k: usize = 0;
    while k < ranges.functions.len()
        invariant
            k <= ranges.functions.len(),
            data@ == m.code_data(),
            opts.mem_rate.0 != 0 ==> opts.mem_rate.1 > 0,
            t.size / 0x10_0000 < usize::MAX,
            inside(ranges.functions@, text_base, text_base.wrapping_add(t.size)),
            w@.built.text_base == text_base,
            w@ == begun.with_functions(*m, opts.mem_rate, ranges.functions@, k as int),
        decreases ranges.functions.len() - k,
    {
        let (start, end) = ranges.functions[k];
        w.function(m, &data, opts.mem_rate, start, end);
        k += 1;
    }
    proof {
        lemma_some_area(begun, *m, opts.mem_rate, ranges.functions@, k as int);
    }
    w
}

/// The contents of `__STUB`
fn stub_contents(w: &Worker, seed: u64) -> (r: Vec<u8>)
    requires
        w@.built.areas.len() > 0,
    ensures
        r@ == stub_text(w@, seed),
{
    let mut text: Vec<u8> = Vec::new();
    push_number(&mut text, MAGIC);
    push_number(&mut text, w.builder.sites.len() as u64);
    push_number(&mut text, w.counts.mem_sites as u64);
    push_number(&mut text, seed);
    assert(w@.built.areas[0] == w.builder.areas@[0]@);
    push_words(&mut text, &w.builder.areas[0].code);
    assert(text@ =~= stub_text(w@, seed));
    text
}

/// Add the rooms' trampolines to the patches; returns how many bytes they
/// are.
fn push_rooms(patches: &mut Vec<(u64, u32)>, areas: &Vec<trampoline::Area>) -> (r: u64)
    requires
        areas.len() > 0,
    ensures
        final(patches)@ == old(patches)@ + room_patches(
            areas@.map_values(|x: trampoline::Area| x@),
            areas.len() as int,
        ),
        r == room_bytes(areas@.map_values(|x: trampoline::Area| x@), areas.len() as int),
{
    let ghost views = areas@.map_values(|x: trampoline::Area| x@);
    let mut in_rooms: u64 = 0;
    let mut a: usize = 1;
    assert(patches@ =~= old(patches)@ + room_patches(views, 1));
    while a < areas.len()
        invariant
            1 <= a <= areas.len(),
            views == areas@.map_values(|x: trampoline::Area| x@),
            patches@ == old(patches)@ + room_patches(views, a as int),
            in_rooms == room_bytes(views, a as int),
        decreases areas.len() - a,
    {
        let area = &areas[a];
        assert(views[a as int] == area@);
        let ghost before = patches@;
        in_rooms = in_rooms.wrapping_add((area.code.len() as u64).wrapping_mul(4));
        let mut i: usize = 0;
        assert(before + area_patches(area@, 0) =~= before);
        while i < area.code.len()
            invariant
                i <= area.code.len(),
                patches@ == before + area_patches(area@, i as int),
            decreases area.code.len() - i,
        {
            patches.push((trampoline::addr_of_word(area.base, i), area.code[i]));
            i += 1;
            assert(patches@ =~= before + area_patches(area@, i as int));
        }
        a += 1;
        assert(patches@ =~= old(patches)@ + room_patches(views, a as int));
    }
    in_rooms
}

pub fn rewrite(m: &MachO, opts: &Options) -> (r: Result<Rewritten, Error>)
    requires
        opts.mem_rate.0 != 0 ==> opts.mem_rate.1 > 0,
        m.stub_place() is Some ==> m.emittable(),
        m.text() matches Some(t) ==> t.size / 0x10_0000 < usize::MAX,
    ensures
        rewrites(*m, *opts, r),
{
    let base: u64 = match m.plan_stub() {
        Ok(s) => s.vmaddr.wrapping_add(HEADER_SIZE),
        Err(e) => {
            return Err(Error::MachO(e));
        },
    };
    let ranges = match function_ranges(m) {
        Ok(r) => r,
        Err(e) => {
            return Err(Error::MachO(e));
        },
    };
    let text_base: u64 = match m.text_section() {
        Ok(t) => t.addr,
        Err(e) => {
            return Err(Error::MachO(e));
        },
    };
    let w = work_through(m, opts, base, &ranges, text_base);
    let ghost done = w@;
    let contents = stub_contents(&w, opts.seed);
    let Worker { builder, rng: _, counts, mem_site_addrs } = w;
    let Builder { areas, text_base: _, unreachable, site_buckets, patches, sites } = builder;
    let mut patches = patches;
    let in_rooms: u64 = push_rooms(&mut patches, &areas);
    assert(patches@ == all_patches(done));
    let stats = Stats {
        functions: counts.functions,
        stack_tainted_functions: counts.stack_tainted,
        words: counts.words,
        branch_sites: counts.branch_sites,
        call_sites: counts.call_sites,
        counter_sites: counts.counter_sites,
        mem_candidates: counts.mem_candidates,
        mem_sites: counts.mem_sites,
        unreachable_sites: unreachable,
        unnamed_entries: ranges.unnamed_addrs.len(),
        unnamed_addrs: ranges.unnamed_addrs,
        rooms: ranges.rooms.len(),
        room_bytes: in_rooms,
        sites_per_mb: site_buckets,
        exclusive_words: counts.exclusive_words,
        data_in_code_words: counts.data_in_code_words,
        skipped_blr_x30: counts.skipped_blr_x30,
        stub_bytes: contents.len(),
        mem_site_addrs,
    };
    assert(stats.tells(*m, *opts));
    let given: usize = m.data.len();
    if given > usize::MAX - 0x1_0000 || contents.len() > usize::MAX - 0x1_0000 - given {
        return Err(Error::MachO(macho::Error::BadLayout("the image is too large".to_owned())));
    }
    match m.emit_stub(patches.as_slice(), contents.as_slice()) {
        Ok(image) => Ok(Rewritten { image, stats, sites }),
        Err(e) => Err(Error::MachO(e)),
    }
}

/// There is always the segment's area.
proof fn lemma_some_area(w: Work, m: MachO, rate: (u32, u32), fns: Seq<(u64, u64)>, k: int)
    ensures
        w.with_functions(m, rate, fns, k).built.areas.len() == w.built.areas.len(),
    decreases k,
{
    if k > 0 {
        lemma_some_area(w, m, rate, fns, k - 1);
        let before = w.with_functions(m, rate, fns, k - 1);
        let (start, end) = fns[k - 1];
        let n = (end - start) / 4;
        let counts = Counts {
            functions: before.counts.functions.wrapping_add(1),
            stack_tainted: if hands_out_stack(m, start, n) {
                before.counts.stack_tainted.wrapping_add(1)
            } else {
                before.counts.stack_tainted
            },
            ..before.counts
        };
        lemma_same_areas(Work { counts, ..before }, m, rate, start, n, n);
    }
}

proof fn lemma_hooked_areas(b: Built, hook: Hook, pc: u64)
    ensures
        b.hooked(hook, pc).areas.len() == b.areas.len(),
        b.tried(pc).areas.len() == b.areas.len(),
{
    trampoline::lemma_taker(b, hook, pc, 0);
}

proof fn lemma_word_areas(w: Work, m: MachO, rate: (u32, u32), start: u64, n: int, i: int)
    ensures
        w.with_word(m, rate, start, n, i).built.areas.len() == w.built.areas.len(),
{
    let pc = trampoline::word_addr(start, i);
    let replay = Hook::Stub {
        guard: Guard::Always,
        call: false,
        tail: Tail::Replay(word(m, pc)),
    };
    lemma_hooked_areas(w.built.tried(pc), replay, pc);
    lemma_hooked_areas(w.built, replay, pc);
    if let Some(hook) = hook_of(class(m, pc), pc) {
        lemma_hooked_areas(base_for(w.built, hook, pc), hook, pc);
    }
}

proof fn lemma_same_areas(w: Work, m: MachO, rate: (u32, u32), start: u64, n: int, i: int)
    ensures
        w.with_words(m, rate, start, n, i).built.areas.len() == w.built.areas.len(),
    decreases i,
{
    if i > 0 {
        lemma_same_areas(w, m, rate, start, n, i - 1);
        lemma_word_areas(w.with_words(m, rate, start, n, i - 1), m, rate, start, n, i - 1);
    }
}

/// Scan without emitting: the statistics only.
pub fn scan(m: &MachO, opts: &Options) -> (r: Result<Stats, Error>)
    requires
        opts.mem_rate.0 != 0 ==> opts.mem_rate.1 > 0,
        m.stub_place() is Some ==> m.emittable(),
        m.text() matches Some(t) ==> t.size / 0x10_0000 < usize::MAX,
    ensures
        match r {
            Ok(s) => s.tells(*m, *opts) && exists|done: Rewritten|
                #[trigger] rewrites(*m, *opts, Ok(done)) && done.stats == s,
            Err(e) => rewrites(*m, *opts, Err(e)),
        },
{
    match rewrite(m, opts) {
        Ok(done) => {
            assert(rewrites(*m, *opts, Ok(done)));
            Ok(done.stats)
        },
        Err(e) => Err(e),
    }
}

/// Whether `addr` is a word of one of these functions that the rewriter may
/// touch: it is not marked as data and not in an exclusive span
pub open spec fn may_touch(m: MachO, fns: Seq<(u64, u64)>, addr: u64) -> bool {
    exists|k: int, j: int|
        0 <= k < fns.len() && 0 <= j < (fns[k].1 - fns[k].0) / 4 && addr
            == #[trigger] trampoline::word_addr(fns[k].0, j) && !is_data(m, addr) && !in_span(
            m,
            fns[k].0,
            j,
        )
}

/// Each site has its patch, and all are where the rewriter may touch.
spec fn well_placed(m: MachO, fns: Seq<(u64, u64)>, b: Built) -> bool {
    &&& b.patches.len() == b.sites.len()
    &&& forall|i: int|
        0 <= i < b.sites.len() ==> may_touch(m, fns, (#[trigger] b.sites[i]).addr) && b.patches[i].0
            == b.sites[i].addr
}

proof fn lemma_hook_placed(m: MachO, fns: Seq<(u64, u64)>, b: Built, hook: Hook, pc: u64)
    requires
        well_placed(m, fns, b),
        may_touch(m, fns, pc),
    ensures
        well_placed(m, fns, b.hooked(hook, pc)),
        well_placed(m, fns, b.tried(pc)),
{
}

proof fn lemma_words_placed(
    w: Work,
    m: MachO,
    rate: (u32, u32),
    fns: Seq<(u64, u64)>,
    k: int,
    i: int,
)
    requires
        0 <= k < fns.len(),
        0 <= i <= (fns[k].1 - fns[k].0) / 4,
        well_placed(m, fns, w.built),
    ensures
        well_placed(
            m,
            fns,
            w.with_words(m, rate, fns[k].0, (fns[k].1 - fns[k].0) / 4, i).built,
        ),
    decreases i,
{
    if i > 0 {
        lemma_words_placed(w, m, rate, fns, k, i - 1);
        let start = fns[k].0;
        let n = (fns[k].1 - fns[k].0) / 4;
        let before = w.with_words(m, rate, start, n, i - 1);
        let pc = trampoline::word_addr(start, i - 1);
        if !is_data(m, pc) && !in_span(m, start, i - 1) {
            assert(may_touch(m, fns, pc));
            let replay = Hook::Stub {
                guard: Guard::Always,
                call: false,
                tail: Tail::Replay(word(m, pc)),
            };
            lemma_hook_placed(m, fns, before.built, replay, pc);
            lemma_hook_placed(m, fns, before.built.tried(pc), replay, pc);
            if let Some(hook) = hook_of(class(m, pc), pc) {
                lemma_hook_placed(m, fns, base_for(before.built, hook, pc), hook, pc);
            }
        }
    }
}

proof fn lemma_functions_placed(w: Work, m: MachO, rate: (u32, u32), fns: Seq<(u64, u64)>, k: int)
    requires
        0 <= k <= fns.len(),
        forall|j: int| 0 <= j < fns.len() ==> (#[trigger] fns[j]).0 <= fns[j].1,
        well_placed(m, fns, w.built),
    ensures
        well_placed(m, fns, w.with_functions(m, rate, fns, k).built),
    decreases k,
{
    if k > 0 {
        lemma_functions_placed(w, m, rate, fns, k - 1);
        let before = w.with_functions(m, rate, fns, k - 1);
        let (start, end) = fns[k - 1];
        let n = (end - start) / 4;
        let counts = Counts {
            functions: before.counts.functions.wrapping_add(1),
            stack_tainted: if hands_out_stack(m, start, n) {
                before.counts.stack_tainted.wrapping_add(1)
            } else {
                before.counts.stack_tainted
            },
            ..before.counts
        };
        lemma_words_placed(Work { counts, ..before }, m, rate, fns, k - 1, n);
    }
}

/// The rewriter touches words of the functions it hooks alone, never data in
/// the code and never a word of an exclusive span, and each site it lists
/// has exactly one patch, at its address.
pub proof fn only_hookable_words_are_touched(m: MachO, opts: Options)
    requires
        m.stub_place() is Some,
        m.text() is Some,
        m.starts() is Some,
    ensures
        worked(m, opts).built.patches.len() == worked(m, opts).built.sites.len(),
        forall|i: int|
            0 <= i < worked(m, opts).built.sites.len() ==> may_touch(
                m,
                table_of(m).functions,
                (#[trigger] worked(m, opts).built.sites[i]).addr,
            ) && worked(m, opts).built.patches[i].0 == worked(m, opts).built.sites[i].addr,
{
    let table = table_of(m);
    let t = m.text().unwrap();
    let starts = m.starts().unwrap();
    lemma_functions_inside(m, starts, t.addr, t.addr.wrapping_add(t.size), starts.len() as int);
    let begun = Work {
        built: Built::fresh(code_base(m), table.rooms, t.addr),
        rng: rng::expanded(opts.seed),
        counts: Counts::none(),
        mem_site_addrs: Seq::empty(),
    };
    lemma_functions_placed(begun, m, opts.mem_rate, table.functions, table.functions.len() as int);
}

/// No function that is hooked is a room.
pub proof fn rooms_are_not_hooked(m: MachO, k: int)
    requires
        m.text() is Some,
        m.starts() is Some,
        0 <= k < table_of(m).functions.len(),
    ensures
        !is_room(m, table_of(m).functions[k].0),
{
    let t = m.text().unwrap();
    let starts = m.starts().unwrap();
    lemma_no_room(m, starts, t.addr, t.addr.wrapping_add(t.size), starts.len() as int);
}

proof fn lemma_no_room(m: MachO, starts: Seq<u64>, from: u64, end: u64, n: int)
    ensures
        forall|k: int|
            0 <= k < sorted_out(m, starts, from, end, n).functions.len() ==> !is_room(
                m,
                (#[trigger] sorted_out(m, starts, from, end, n).functions[k]).0,
            ),
    decreases n,
{
    if n > 0 {
        lemma_no_room(m, starts, from, end, n - 1);
        let before = sorted_out(m, starts, from, end, n - 1);
        let after = sorted_out(m, starts, from, end, n);
        assert forall|k: int| 0 <= k < after.functions.len() implies !is_room(
            m,
            (#[trigger] after.functions[k]).0,
        ) by {
            if k < before.functions.len() {
                assert(after.functions[k] == before.functions[k]);
            }
        }
    }
}

/// A rate is two numbers with a slash between, the second not zero and the first
/// not larger.
pub proof fn two_numbers_are_a_rate(n: nat, d: nat)
    ensures
        rate_of(text::decimal(n) + seq!['/'] + text::decimal(d)) == (if 0 < d && n <= d && d
            <= u32::MAX {
            Some((n as u32, d as u32))
        } else {
            None
        }),
{
    let a = text::decimal(n);
    let b = text::decimal(d);
    lemma_plain_number(n);
    lemma_plain_number(d);
    text::a_text_is_split_at_the_first(a, '/', b);
    text::a_written_number_is_read(n, 10, u32::MAX as nat);
    text::a_written_number_is_read(d, 10, u32::MAX as nat);
}

proof fn lemma_plain_number(n: nat)
    ensures
        text::trimmed(text::decimal(n)) == text::decimal(n),
        !text::decimal(n).contains('/'),
{
    text::digits_read_back(n, 10);
    let d = text::decimal(n);
    assert('0' <= d[0] <= '9' || 'a' <= d[0] <= 'f');
    assert('0' <= d[d.len() - 1] <= '9' || 'a' <= d[d.len() - 1] <= 'f');
    let none = Seq::<char>::empty();
    text::only_spaces_are_trimmed(none, d, none);
    assert(none + d + none =~= d);
    if d.contains('/') {
        let i = choose|i: int| 0 <= i < d.len() && d[i] == '/';
        assert('0' <= d[i] <= '9' || 'a' <= d[i] <= 'f');
    }
}

} // verus!
