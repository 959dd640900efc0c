//! Room for trampolines inside the text of a big program.
//!
//! A hooked site reaches its trampoline with one `b` (128 MB either way), and
//! the stub segment sits after `__DATA`, so in a program whose code runs past
//! about 120 MB the early sites reach nothing. The way out is at link
//! time: an object file per room, a `.space` of zeros under a symbol the
//! rewriter knows (`ROOM_PREFIX`), placed in the middle of the text by an
//! order file that lists the symbols meant to come before it (the linker
//! keeps the rest in their usual order after the listed ones). The
//! rewriter then writes the trampolines of sites out of the segment's
//! reach into the room nearest them.
//!
//! The plan comes from the first link: sites per MB of text, from
//! `Stats::sites_per_mb`, decide each room's size; a room covers 128 MB on
//! either side of itself, less its own size for what comes after it,
//! since inserting it moves that up. Symbols within a megabyte of a
//! function-table entry with no symbol are not listed: such an entry is a
//! constant table the neighbouring code reaches with an `adr`, which the
//! linker would leave behind (it keeps only listed atoms in place), so the
//! neighbourhood goes to the tail together, where the order is kept.

use vstd::prelude::*;
use crate::macho;
use crate::macho::{MachO, PAGE};
use crate::rewrite::{Stats, ROOM_PREFIX};
use crate::text;

verus! {

/// How far apart two addresses are
pub open spec fn apart(a: u64, b: u64) -> int {
    if a >= b {
        a - b
    } else {
        b - a
    }
}

pub struct Plan {
    /// Each room's symbol and size, in address order
    pub rooms: Vec<(String, u64)>,
    pub order_file: String,
    /// Sites the segment would not reach
    pub far_sites: u64,
}

/// The longest trampoline
pub const BYTES_PER_SITE: u64 = 24;

/// An `adr` reaches this far: what stays with an unnamed entry
pub const NEAR_ENTRY: u64 = 0x10_0000;

/// The reachable sites' trampolines come first in the segment; sites this
/// close to the boundary are taken as out of reach too
pub const MARGIN: u64 = 0x80_0000;

/// Room placement is by symbol, a symbol's atom may be long: a room lands
/// somewhat past where it was asked for
pub const SLACK: u64 = 0x40_0000;

/// How far a `b` reaches
pub const REACH: u64 = 0x800_0000;

/// The largest number that fits, where `n` does not
pub open spec fn clamped(n: int) -> u64 {
    if n <= u64::MAX {
        n as u64
    } else {
        u64::MAX
    }
}

/// `a - b`, or zero
pub open spec fn less(a: int, b: int) -> int {
    if a > b {
        a - b
    } else {
        0
    }
}

pub open spec fn lower(a: int, b: int) -> int {
    if a < b {
        a
    } else {
        b
    }
}

pub open spec fn higher(a: int, b: int) -> int {
    if a > b {
        a
    } else {
        b
    }
}

fn min_of(a: u64, b: u64) -> (r: u64)
    ensures
        r == lower(a as int, b as int),
{
    if a < b {
        a
    } else {
        b
    }
}

fn max_of(a: u64, b: u64) -> (r: u64)
    ensures
        r == higher(a as int, b as int),
{
    if a > b {
        a
    } else {
        b
    }
}

/// The sum of the counts from bucket `lo` up to `hi`
pub open spec fn sum(buckets: Seq<u32>, lo: int, hi: int) -> u64
    decreases hi - lo,
{
    if hi <= lo {
        0
    } else {
        clamped(sum(buckets, lo, hi - 1) + buckets[hi - 1])
    }
}

/// How many sites were tried between two offsets from the text's start, in
/// whole megabytes
pub open spec fn sites_between(buckets: Seq<u32>, lo: u64, hi: u64) -> u64 {
    let last = lower((hi as int + 0xF_FFFF) / 0x10_0000, buckets.len() as int);
    sum(buckets, lower(lo as int / 0x10_0000, last), last)
}

fn sites_in(buckets: &Vec<u32>, lo: u64, hi: u64) -> (r: u64)
    ensures
        r == sites_between(buckets@, lo, hi),
{
    let ghost last = lower((hi as int + 0xF_FFFF) / 0x10_0000, buckets.len() as int);
    let up: u64 = hi / 0x10_0000 + (if hi % 0x10_0000 == 0 {
        0u64
    } else {
        1u64
    });
    assert(up == (hi as int + 0xF_FFFF) / 0x10_0000);
    let end: usize = if up < buckets.len() as u64 {
        up as usize
    } else {
        buckets.len()
    };
    let from: usize = if lo / 0x10_0000 < end as u64 {
        (lo / 0x10_0000) as usize
    } else {
        end
    };
    let mut n: u64 = 0;
    let mut i: usize = from;
    while i < end
        invariant
            from <= i <= end <= buckets.len(),
            n == sum(buckets@, from as int, i as int),
        decreases end - i,
    {
        n = n.saturating_add(buckets[i] as u64);
        i += 1;
    }
    n
}

/// The size of a room for `n` sites: their trampolines and a tenth more, and
/// the shared body, in whole pages
pub open spec fn room_size(n: u64) -> u64 {
    clamped(macho::rounded_up(n as int * BYTES_PER_SITE * 11 / 10 + 4096, PAGE as int))
}

fn size_for(n: u64) -> (r: u64)
    ensures
        r == room_size(n),
{
    let v: u128 = n as u128 * 24 * 11 / 10 + 4096;
    let pages: u128 = (v + 0x3FFF) / 0x4000;
    let size: u128 = pages * 0x4000;
    if size > u64::MAX as u128 {
        u64::MAX
    } else {
        size as u64
    }
}

/// What the plan is made for: how long the text is, how far up the stub
/// segment lies and where the sites are
pub struct Ground {
    pub text_size: u64,
    pub segment: u64,
    pub buckets: Seq<u32>,
}

impl Ground {
    /// The stretch a room serves from `from` on, after `k` steps of settling
    /// its length. A room of z bytes at p serves [p - (R - z), p + (R - z)]:
    /// its last trampoline must be within reach of the stretch's first site,
    /// its first of the stretch's last site, which the room itself moves up
    /// by z. So a stretch is L = 2 (R - z - slack) long, and z is the
    /// stretch's sites' worth: with b bytes of trampoline for the stretch's
    /// len bytes of text, z = 2 b (R - slack) / (len + 2 b). The density is
    /// the stretch's own, so the two are settled together.
    pub open spec fn stretch(self, from: u64, k: int) -> u64
        decreases k,
    {
        if k <= 0 {
            (2 * REACH) as u64
        } else {
            let len = self.stretch(from, k - 1);
            let end = self.cut(from, len);
            let b = room_size(sites_between(self.buckets, from, end));
            let z = 2 * b * (REACH - SLACK) / (higher(end - from, 1) + 2 * b);
            let again = higher(2 * less(REACH - SLACK, z), 0x10_0000);
            ((len + again) / 2) as u64
        }
    }

    /// `len` bytes on from `from`, but not past the text
    pub open spec fn cut(self, from: u64, len: u64) -> u64 {
        lower(clamped(from + len) as int, self.text_size as int) as u64
    }

    /// Where the stretch from `from` on ends
    pub open spec fn stretch_end(self, from: u64) -> u64 {
        self.cut(from, self.stretch(from, 8))
    }

    /// The size of the room for the stretch from `from` on
    pub open spec fn bytes_at(self, from: u64) -> u64 {
        room_size(sites_between(self.buckets, from, self.stretch_end(from)))
    }

    /// Where that room goes
    pub open spec fn place_at(self, from: u64) -> u64 {
        lower(
            higher(
                clamped(from + less(REACH as int, clamped(self.bytes_at(from) + SLACK) as int)) as int,
                clamped(from + 1) as int,
            ),
            self.text_size as int,
        ) as u64
    }

    /// Where the next stretch begins
    pub open spec fn next_from(self, from: u64) -> u64 {
        higher(self.stretch_end(from) as int, clamped(self.place_at(from) + 1) as int) as u64
    }

    /// The rooms, place and size, for the text from `from` up to `far_end`
    pub open spec fn rooms_from(self, from: u64, far_end: u64) -> Seq<(u64, u64)>
        decreases less(far_end as int, from as int),
        when far_end <= self.text_size
        via Self::rooms_decrease
    {
        if from >= far_end {
            Seq::empty()
        } else {
            let room = (self.place_at(from), self.bytes_at(from));
            if self.place_at(from) >= self.text_size {
                seq![room]
            } else {
                seq![room] + self.rooms_from(self.next_from(from), far_end)
            }
        }
    }

    #[via_fn]
    proof fn rooms_decrease(self, from: u64, far_end: u64) {
    }

    /// The text that `total` bytes of rooms put out of the segment's reach:
    /// they move the segment up. No site lies past the text, however far.
    pub open spec fn far_end(self, total: u64) -> u64 {
        lower(
            less(clamped(clamped(self.segment + total) + MARGIN) as int, REACH as int),
            self.text_size as int,
        ) as u64
    }

    /// The rooms after `k` rounds of planning; rooms move the segment up,
    /// which puts more sites out of its reach. None where it reaches all.
    pub open spec fn round(self, k: int) -> Option<Seq<(u64, u64)>>
        decreases k,
    {
        if k <= 0 {
            Some(Seq::empty())
        } else {
            match self.round(k - 1) {
                None => None,
                Some(rooms) => {
                    let far_end = self.far_end(total_of(rooms));
                    if far_end == 0 {
                        None
                    } else {
                        Some(self.rooms_from(0, far_end))
                    }
                },
            }
        }
    }
}

/// The bytes of all rooms
pub open spec fn total_of(rooms: Seq<(u64, u64)>) -> u64
    decreases rooms.len(),
{
    if rooms.len() == 0 {
        0
    } else {
        clamped(total_of(rooms.drop_last()) + rooms.last().1)
    }
}

/// The stretch from `from` on: its room's place and size, and its end
fn settle(text_size: u64, buckets: &Vec<u32>, from: u64, Ghost(g): Ghost<Ground>) -> (r: (u64, u64, u64))
    requires
        g.text_size == text_size,
        g.buckets == buckets@,
        from < text_size,
    ensures
        r.0 == g.place_at(from),
        r.1 == g.bytes_at(from),
        r.2 == g.stretch_end(from),
{
    let mut len: u64 = 2 * REACH;
    let mut k: u64 = 0;
    while k < 8
        invariant
            k <= 8,
            g.text_size == text_size,
            g.buckets == buckets@,
            from < text_size,
            len == g.stretch(from, k as int),
            len <= 2 * REACH,
        decreases 8 - k,
    {
        let end: u64 = min_of(from.saturating_add(len), text_size);
        let b: u64 = size_for(sites_in(buckets, from, end));
        proof {
            lemma_share(b, (end - from) as int);
        }
        let z: u64 = (2 * b as u128 * (REACH - SLACK) as u128 / (max_of(end - from, 1) as u128 + 2
            * b as u128)) as u64;
        let again: u64 = max_of(2 * (REACH - SLACK).saturating_sub(z), 0x10_0000);
        len = (len + again) / 2;
        k += 1;
    }
    let next: u64 = min_of(from.saturating_add(len), text_size);
    let bytes: u64 = size_for(sites_in(buckets, from, next));
    let at: u64 = min_of(
        max_of(
            from.saturating_add(REACH.saturating_sub(bytes.saturating_add(SLACK))),
            from.saturating_add(1),
        ),
        text_size,
    );
    (at, bytes, next)
}

proof fn lemma_share(b: u64, len: int)
    requires
        0 <= len,
    ensures
        0 <= 2 * b * (REACH - SLACK) / (higher(len, 1) + 2 * b) <= REACH - SLACK,
{
    let r = (REACH - SLACK) as int;
    let d = higher(len, 1) + 2 * b;
    let n = 2 * b * r;
    assert(0 <= n) by (nonlinear_arith)
        requires
            n == 2 * b * r,
            r >= 0,
    ;
    assert(n <= d * r) by (nonlinear_arith)
        requires
            n == 2 * b * r,
            d >= 2 * b,
            r >= 0,
    ;
    assert(0 <= n / d <= r) by (nonlinear_arith)
        requires
            0 <= n <= d * r,
            d >= 1,
    ;
}

/// The rooms for the text up to `far_end`, and their bytes
fn make_rooms(text_size: u64, buckets: &Vec<u32>, far_end: u64, Ghost(g): Ghost<Ground>) -> (r: (
    Vec<(u64, u64)>,
    u64,
))
    requires
        g.text_size == text_size,
        g.buckets == buckets@,
        far_end <= text_size,
    ensures
        r.0@ == g.rooms_from(0, far_end),
        r.1 == total_of(r.0@),
{
    let mut rooms: Vec<(u64, u64)> = Vec::new();
    let mut total: u64 = 0;
    let mut from: u64 = 0;
    let ghost wanted = g.rooms_from(0, far_end);
    assert(rooms@ + g.rooms_from(0, far_end) =~= wanted);
    while from < far_end
        invariant_except_break
            rooms@ + g.rooms_from(from, far_end) == wanted,
        invariant
            g.text_size == text_size,
            g.buckets == buckets@,
            far_end <= text_size,
            wanted == g.rooms_from(0, far_end),
            total == total_of(rooms@),
        ensures
            rooms@ == wanted,
        decreases less(far_end as int, from as int),
    {
        let (at, bytes, next) = settle(text_size, buckets, from, Ghost(g));
        let ghost before = rooms@;
        rooms.push((at, bytes));
        total = total.saturating_add(bytes);
        proof {
            assert(rooms@.drop_last() =~= before);
            assert(g.rooms_from(from, far_end).len() >= 1);
        }
        if at >= text_size {
            assert(rooms@ =~= before + seq![(at, bytes)]);
            break;
        }
        let ghost rest = g.rooms_from(g.next_from(from), far_end);
        assert(before + (seq![(at, bytes)] + rest) =~= rooms@ + rest);
        from = max_of(next, at + 1);
    }
    assert(rooms@ + Seq::<(u64, u64)>::empty() =~= rooms@);
    (rooms, total)
}

/// Whether a symbol is too close to an entry without one to be listed
pub open spec fn near_unnamed(unnamed: Seq<u64>, addr: u64) -> bool {
    exists|i: int|
        0 <= i < unnamed.len() && apart(addr, #[trigger] unnamed[i]) < NEAR_ENTRY
}

fn excluded(unnamed: &Vec<u64>, addr: u64) -> (r: bool)
    ensures
        r == near_unnamed(unnamed@, addr),
{
    let mut i: usize = 0;
    while i < unnamed.len()
        invariant
            i <= unnamed.len(),
            forall|k: int|
                0 <= k < i ==> apart(addr, #[trigger] unnamed@[k]) >= NEAR_ENTRY,
        decreases unnamed.len() - i,
    {
        let u: u64 = unnamed[i];
        let gap: u64 = if addr >= u {
            addr - u
        } else {
            u - addr
        };
        if gap < NEAR_ENTRY {
            return true;
        }
        i += 1;
    }
    false
}

/// How many of the symbols, from number `i` on, come before a room at
/// `at`: a listed atom ends before the room, so a symbol is listed only when
/// the next one begins by `at`
pub open spec fn listed_upto(symbols: Seq<(u64, Seq<char>)>, i: int, at: u64) -> int
    decreases symbols.len() - i,
{
    if 0 <= i && i + 1 < symbols.len() && symbols[i + 1].0 <= at {
        listed_upto(symbols, i + 1, at)
    } else {
        i
    }
}

/// The lines of the symbols from number `i` up to `end`
pub open spec fn symbol_lines(
    symbols: Seq<(u64, Seq<char>)>,
    unnamed: Seq<u64>,
    i: int,
    end: int,
) -> Seq<char>
    decreases end - i,
{
    if end <= i {
        Seq::empty()
    } else {
        let before = symbol_lines(symbols, unnamed, i, end - 1);
        let (addr, name) = symbols[end - 1];
        if near_unnamed(unnamed, addr) {
            before
        } else {
            before + name + seq!['\n']
        }
    }
}

/// The symbol of room `k`
pub open spec fn room_name(k: int) -> Seq<char> {
    ROOM_PREFIX@ + text::decimal(k as nat)
}

/// The order file's lines for the first `k` rooms: the symbols in front of
/// each, then its own
pub open spec fn order_lines(
    symbols: Seq<(u64, Seq<char>)>,
    unnamed: Seq<u64>,
    base: u64,
    rooms: Seq<(u64, u64)>,
    k: int,
) -> Seq<char>
    decreases k,
{
    if k <= 0 {
        Seq::empty()
    } else {
        order_lines(symbols, unnamed, base, rooms, k - 1) + symbol_lines(
            symbols,
            unnamed,
            symbols_before(symbols, base, rooms, k - 1),
            symbols_before(symbols, base, rooms, k),
        ) + room_name(k - 1) + seq!['\n']
    }
}

/// How many symbols are listed, or passed over, in front of the first `k`
/// rooms
pub open spec fn symbols_before(
    symbols: Seq<(u64, Seq<char>)>,
    base: u64,
    rooms: Seq<(u64, u64)>,
    k: int,
) -> int
    decreases k,
{
    if k <= 0 {
        0
    } else {
        listed_upto(
            symbols,
            symbols_before(symbols, base, rooms, k - 1),
            clamped(base + rooms[k - 1].0),
        )
    }
}

/// Symbols as their addresses and the texts of their names
pub open spec fn named(symbols: Seq<(u64, String)>) -> Seq<(u64, Seq<char>)> {
    symbols.map_values(|s: (u64, String)| (s.0, s.1@))
}

fn order_file(symbols: &Vec<(u64, String)>, unnamed: &Vec<u64>, base: u64, rooms: &Vec<(u64, u64)>) -> (r: String)
    ensures
        r@ == order_lines(named(symbols@), unnamed@, base, rooms@, rooms.len() as int),
{
    let ghost syms = named(symbols@);
    let mut out = String::new();
    let mut next: usize = 0;
    let mut k: usize = 0;
    while k < rooms.len()
        invariant
            k <= rooms.len(),
            syms == named(symbols@),
            next <= symbols.len(),
            next == symbols_before(syms, base, rooms@, k as int),
            out@ == order_lines(syms, unnamed@, base, rooms@, k as int),
        decreases rooms.len() - k,
    {
        let limit: u64 = base.saturating_add(rooms[k].0);
        let ghost before = out@;
        let ghost first = next as int;
        assert(before + symbol_lines(syms, unnamed@, first, first) =~= before);
        while next < symbols.len() && next + 1 < symbols.len() && symbols[next + 1].0 <= limit
            invariant
                syms == named(symbols@),
                first <= next <= symbols.len(),
                first >= 0,
                listed_upto(syms, first, limit) == listed_upto(syms, next as int, limit),
                out@ == before + symbol_lines(syms, unnamed@, first, next as int),
            decreases symbols.len() - next,
        {
            assert(syms[next as int] == (symbols@[next as int].0, symbols@[next as int].1@));
            assert(syms[next + 1].0 == symbols@[next + 1].0);
            if !excluded(unnamed, symbols[next].0) {
                let ghost so_far = out@;
                out.append(symbols[next].1.as_str());
                out.push('\n');
                assert(out@ =~= so_far + syms[next as int].1 + seq!['\n']);
            }
            next += 1;
            assert(out@ =~= before + symbol_lines(syms, unnamed@, first, next as int));
        }
        proof {
            if next + 1 < symbols.len() {
                assert(syms[next + 1].0 == symbols@[next + 1].0);
            }
        }
        let ghost listed = out@;
        out.append(ROOM_PREFIX);
        text::push_decimal(&mut out, k as u64);
        out.push('\n');
        assert(out@ =~= listed + room_name(k as int) + seq!['\n']);
        k += 1;
        assert(out@ =~= order_lines(syms, unnamed@, base, rooms@, k as int));
    }
    out
}

/// The ground a program gives
pub open spec fn ground(m: MachO, stats: Stats) -> Ground {
    let t = m.text().unwrap();
    let linkedit = m.segments@[m.segment_index("__LINKEDIT"@).unwrap()];
    Ground {
        text_size: t.size,
        segment: (linkedit.vmaddr - t.addr) as u64,
        buckets: stats.sites_per_mb@,
    }
}

/// The rooms the plan comes to
pub open spec fn planned(m: MachO, stats: Stats) -> Option<Seq<(u64, u64)>> {
    if m.text() is None || m.segment_index("__LINKEDIT"@) is None {
        None
    } else {
        ground(m, stats).round(3)
    }
}

impl Plan {
    /// Whether this is the plan of these rooms
    pub open spec fn places(self, m: MachO, stats: Stats, rooms: Seq<(u64, u64)>) -> bool {
        &&& self.rooms.len() == rooms.len()
        &&& forall|k: int|
            0 <= k < rooms.len() ==> (#[trigger] self.rooms@[k]).0@ == room_name(k)
                && self.rooms@[k].1 == rooms[k].1
        &&& exists|symbols: Seq<(u64, String)>| #[trigger]
            m.symbols_are(symbols) && self.order_file@ == order_lines(
                named(symbols),
                stats.unnamed_addrs@,
                m.text().unwrap().addr,
                rooms,
                rooms.len() as int,
            )
        &&& self.far_sites == sites_between(
            stats.sites_per_mb@,
            0,
            ground(m, stats).far_end(total_of(rooms)),
        )
    }
}

/// A plan for `m` as linked, or None when every site reaches the segment.
pub fn plan(m: &MachO, stats: &Stats) -> (r: Option<Plan>)
    requires
        m.text() matches Some(t) ==> (m.segment_index("__LINKEDIT"@) matches Some(i)
            ==> m.segments@[i].vmaddr >= t.addr),
    ensures
        match r {
            Some(p) => planned(*m, *stats) matches Some(rooms) && p.places(*m, *stats, rooms),
            None => planned(*m, *stats) is None,
        },
{
    let t = match m.text_section() {
        Ok(t) => t,
        Err(_) => {
            return None;
        },
    };
    let linkedit = match m.segment("__LINKEDIT") {
        Some(s) => s,
        None => {
            return None;
        },
    };
    let base: u64 = t.addr;
    let text_size: u64 = t.size;
    let segment: u64 = linkedit.vmaddr - base;
    let ghost g = ground(*m, *stats);
    let mut rooms: Vec<(u64, u64)> = Vec::new();
    let mut total: u64 = 0;
    let mut k: u64 = 0;
    assert(rooms@ =~= Seq::empty());
    while k < 3
        invariant
            k <= 3,
            m.text() is Some,
            m.segment_index("__LINKEDIT"@) is Some,
            g == ground(*m, *stats),
            g.text_size == text_size,
            g.segment == segment,
            g.buckets == stats.sites_per_mb@,
            g.round(k as int) == Some(rooms@),
            total == total_of(rooms@),
        decreases 3 - k,
    {
        let far_end: u64 = min_of(
            segment.saturating_add(total).saturating_add(MARGIN).saturating_sub(REACH),
            text_size,
        );
        if far_end == 0 {
            proof {
                assert(g.round(k + 1) is None);
                lemma_round_none(g, k + 1, 3);
            }
            return None;
        }
        let made = make_rooms(text_size, &stats.sites_per_mb, far_end, Ghost(g));
        rooms = made.0;
        total = made.1;
        k += 1;
    }
    let symbols = m.symbols();
    let order_file = order_file(&symbols, &stats.unnamed_addrs, base, &rooms);
    let far_end: u64 = min_of(
        segment.saturating_add(total).saturating_add(MARGIN).saturating_sub(REACH),
        text_size,
    );
    let mut named_rooms: Vec<(String, u64)> = Vec::new();
    let mut i: usize = 0;
    while i < rooms.len()
        invariant
            i <= rooms.len(),
            named_rooms.len() == i,
            forall|k: int|
                0 <= k < i ==> (#[trigger] named_rooms@[k]).0@ == room_name(k) && named_rooms@[k].1
                    == rooms@[k].1,
        decreases rooms.len() - i,
    {
        let mut name = String::new();
        name.append(ROOM_PREFIX);
        text::push_decimal(&mut name, i as u64);
        assert(name@ =~= room_name(i as int));
        named_rooms.push((name, rooms[i].1));
        i += 1;
    }
    let far_sites: u64 = sites_in(&stats.sites_per_mb, 0, far_end);
    Some(Plan { rooms: named_rooms, order_file, far_sites })
}

proof fn lemma_round_none(g: Ground, k: int, n: int)
    requires
        0 <= k <= n,
        g.round(k) is None,
    ensures
        g.round(n) is None,
    decreases n - k,
{
    if k < n {
        assert(g.round(k + 1) is None);
        lemma_round_none(g, k + 1, n);
    }
}

/// The assembly of a room: `bytes` of nothing under `name`, kept through
/// dead stripping.
#[must_use]
pub fn assembly(name: &str, bytes: u64) -> (r: String)
    ensures
        r@ == ".text\n.globl "@ + name@ + "\n.no_dead_strip "@ + name@ + "\n.p2align 14\n"@ + name@
            + ":\n.space "@ + text::decimal(bytes as nat) + "\n"@,
{
    let mut out = String::new();
    out.append(".text\n.globl ");
    out.append(name);
    out.append("\n.no_dead_strip ");
    out.append(name);
    out.append("\n.p2align 14\n");
    out.append(name);
    out.append(":\n.space ");
    text::push_decimal(&mut out, bytes);
    out.append("\n");
    assert(out@ =~= ".text\n.globl "@ + name@ + "\n.no_dead_strip "@ + name@ + "\n.p2align 14\n"@
        + name@ + ":\n.space "@ + text::decimal(bytes as nat) + "\n"@);
    out
}

/// Rooms are planned in address order, each within the text and in whole
/// pages.
pub proof fn rooms_are_in_order(g: Ground, from: u64, far_end: u64)
    requires
        far_end <= g.text_size,
    ensures
        forall|k: int|
            0 <= k < g.rooms_from(from, far_end).len() ==> from < (#[trigger] g.rooms_from(
                from,
                far_end,
            )[k]).0 <= g.text_size && (g.rooms_from(from, far_end)[k].1 % PAGE == 0
                || g.rooms_from(from, far_end)[k].1 == u64::MAX),
        forall|j: int, k: int|
            0 <= j < k < g.rooms_from(from, far_end).len() ==> (#[trigger] g.rooms_from(
                from,
                far_end,
            )[j]).0 < (#[trigger] g.rooms_from(from, far_end)[k]).0,
    decreases less(far_end as int, from as int),
{
    if from < far_end {
        let all = g.rooms_from(from, far_end);
        lemma_whole_pages(sites_between(g.buckets, from, g.stretch_end(from)));
        if g.place_at(from) < g.text_size {
            let rest = g.rooms_from(g.next_from(from), far_end);
            rooms_are_in_order(g, g.next_from(from), far_end);
            assert(all =~= seq![(g.place_at(from), g.bytes_at(from))] + rest);
            assert forall|k: int| 1 <= k < all.len() implies g.next_from(from) < (
            #[trigger] all[k]).0 <= g.text_size && (all[k].1 % PAGE == 0 || all[k].1
                == u64::MAX) by {
                assert(all[k] == rest[k - 1]);
            }
            assert forall|j: int, k: int| 0 <= j < k < all.len() implies (#[trigger] all[j]).0 < (
            #[trigger] all[k]).0 by {
                if j > 0 {
                    assert(all[j] == rest[j - 1]);
                }
                assert(all[k] == rest[k - 1]);
            }
        } else {
            assert(all =~= seq![(g.place_at(from), g.bytes_at(from))]);
        }
    }
}

proof fn lemma_whole_pages(n: u64)
    ensures
        room_size(n) % PAGE == 0 || room_size(n) == u64::MAX,
{
}

/// A room has place for the trampolines of its sites, with a tenth to spare,
/// and is reached from where its stretch of the text begins, wherever it is not
/// larger than that reach.
pub proof fn a_room_is_large_and_near_enough(g: Ground, n: u64, from: u64)
    requires
        n <= 0x1_0000_0000,
    ensures
        room_size(n) >= 24 * n + 4096,
        g.bytes_at(from) + SLACK < REACH && from + REACH <= g.text_size ==> from < g.place_at(from)
            && g.place_at(from) + g.bytes_at(from) + SLACK <= from + REACH,
{
}

} // verus!
