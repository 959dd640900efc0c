//! What the rewriter hooks: every event of the code that it can reach.

use vstd::prelude::*;
use super::{Counts, Options, Work};
use crate::decode;
use crate::decode::Class;
use crate::macho::MachO;
use crate::rng;
use crate::sites::SiteKind;
use crate::stub;
use crate::trampoline;
use crate::trampoline::{AreaView, Built, Guard, Hook, Tail};

verus! {

/// A word address between the two bounds, with room behind it for a
/// trampoline
pub open spec fn between(addr: int, lo: int, hi: int) -> bool {
    addr % 4 == 0 && lo <= addr && addr + 64 <= hi
}

/// Bounds so close to each other that a branch leads from anywhere between
/// them to anywhere
pub open spec fn close(lo: int, hi: int) -> bool {
    0 <= lo && hi <= lo + 0x800_0000 && hi < 0x8000_0000_0000_0000
}

proof fn lemma_reach(a: u64, b: u64, lo: int, hi: int)
    requires
        close(lo, hi),
        a % 4 == 0,
        b % 4 == 0,
        lo <= a < hi,
        lo <= b < hi,
    ensures
        stub::b_word(a, b) is Some,
        stub::bl_word(a, b) is Some,
{
}

proof fn lemma_after(start: u64, i: int, lo: int, hi: int)
    requires
        close(lo, hi),
        between(start as int, lo, hi),
        0 <= i < 16,
    ensures
        trampoline::word_addr(start, i) == start + 4 * i,
        trampoline::word_addr(start, i) % 4 == 0,
        lo <= trampoline::word_addr(start, i) < hi,
{
}

/// Where a hook's own branch leads, if it has one
spec fn leads_between(hook: Hook, lo: int, hi: int) -> bool {
    match hook {
        Hook::Stub { guard: _, call: _, tail } => match tail {
            Tail::Jump { target, island: _ } => between(target as int, lo, hi),
            _ => true,
        },
        Hook::Counter { rt: _ } => true,
    }
}

#[verifier::rlimit(40)]
proof fn lemma_code(hook: Hook, site: u64, start: u64, common: u64, lo: int, hi: int)
    requires
        close(lo, hi),
        between(site as int, lo, hi),
        between(start as int, lo, hi),
        between(common as int, lo, hi),
        leads_between(hook, lo, hi),
    ensures
        trampoline::code_for(hook, site, start, common) is Some,
{
    lemma_reach(site, start, lo, hi);
    lemma_after(site, 1, lo, hi);
    match hook {
        Hook::Stub { guard, call, tail } => {
            reveal(trampoline::stub_code);
            let g: int = if guard is Always {
                0
            } else {
                1
            };
            lemma_after(start, g + 1, lo, hi);
            lemma_reach(trampoline::word_addr(start, g + 1), common, lo, hi);
            lemma_after(start, g + 3, lo, hi);
            let at = trampoline::word_addr(start, g + 3);
            match tail {
                Tail::Jump { target, island: _ } => {
                    lemma_reach(at, target, lo, hi);
                },
                Tail::Replay(_) => {
                    lemma_after(start, g + 4, lo, hi);
                    assert(trampoline::next(at) == trampoline::word_addr(start, g + 4));
                    lemma_reach(trampoline::next(at), trampoline::next(site), lo, hi);
                },
                Tail::Indirect(_) => {},
            }
            let last = trampoline::tail_words(tail, site, at);
            assert(last is Some);
            let n = 3 + last.unwrap().len() as int;
            lemma_after(start, n + 1, lo, hi);
            lemma_reach(trampoline::word_addr(start, n + 1), trampoline::next(site), lo, hi);
        },
        Hook::Counter { rt: _ } => {
            reveal(trampoline::counter_code);
            lemma_after(start, 7, lo, hi);
            lemma_reach(trampoline::word_addr(start, 7), trampoline::next(site), lo, hi);
        },
    }
}

/// The segment's area is where it was, and holds no less than it did; no site
/// is gone.
spec fn grew(before: Built, after: Built) -> bool {
    &&& after.areas.len() == before.areas.len()
    &&& before.areas.len() > 0 ==> after.areas[0].base == before.areas[0].base
        && after.areas[0].common == before.areas[0].common && after.areas[0].capacity
        == before.areas[0].capacity && after.areas[0].code.len() >= before.areas[0].code.len()
    &&& before.sites.is_prefix_of(after.sites)
}

proof fn lemma_prefix<T>(a: Seq<T>, b: Seq<T>, c: Seq<T>)
    requires
        a.is_prefix_of(b),
        b.is_prefix_of(c),
    ensures
        a.is_prefix_of(c),
{
    assert(a =~= c.take(a.len() as int)) by {
        assert forall|i: int| 0 <= i < a.len() implies a[i] == c[i] by {
            assert(a[i] == b[i]);
            assert(b[i] == c[i]);
        }
    }
}

proof fn lemma_grew(a: Built, b: Built, c: Built)
    requires
        grew(a, b),
        grew(b, c),
    ensures
        grew(a, c),
{
    lemma_prefix(a.sites, b.sites, c.sites);
}

proof fn lemma_hooked_grew(b: Built, hook: Hook, pc: u64)
    ensures
        grew(b, b.hooked(hook, pc)),
        grew(b, b.tried(pc).hooked(hook, pc)),
{
    let t = b.tried(pc);
    trampoline::lemma_taker(b, hook, pc, 0);
    trampoline::lemma_taker(t, hook, pc, 0);
    let x = b.hooked(hook, pc);
    let y = t.hooked(hook, pc);
    assert(b.sites.is_prefix_of(x.sites)) by {
        assert(b.sites =~= x.sites.take(b.sites.len() as int));
    }
    assert(b.sites.is_prefix_of(y.sites)) by {
        assert(b.sites =~= y.sites.take(b.sites.len() as int));
    }
}

proof fn lemma_word_grew(w: Work, m: MachO, rate: (u32, u32), start: u64, n: int, i: int)
    ensures
        grew(w.built, w.with_word(m, rate, start, n, i).built),
{
    let pc = trampoline::word_addr(start, i);
    let replay = Hook::Stub {
        guard: Guard::Always,
        call: false,
        tail: Tail::Replay(super::word(m, pc)),
    };
    lemma_hooked_grew(w.built, replay, pc);
    if let Some(hook) = super::hook_of(super::class(m, pc), pc) {
        lemma_hooked_grew(w.built, hook, pc);
    }
    assert(w.built.sites.is_prefix_of(w.built.sites));
}

proof fn lemma_words_grew(
    w: Work,
    m: MachO,
    rate: (u32, u32),
    start: u64,
    n: int,
    i: int,
    to: int,
)
    requires
        0 <= i <= to,
    ensures
        grew(
            w.with_words(m, rate, start, n, i).built,
            w.with_words(m, rate, start, n, to).built,
        ),
    decreases to - i,
{
    let a = w.with_words(m, rate, start, n, i);
    if i < to {
        lemma_words_grew(w, m, rate, start, n, i, to - 1);
        let b = w.with_words(m, rate, start, n, to - 1);
        lemma_word_grew(b, m, rate, start, n, to - 1);
        lemma_grew(a.built, b.built, w.with_words(m, rate, start, n, to).built);
    } else {
        assert(a.built.sites.is_prefix_of(a.built.sites));
    }
}

/// A function's work before its first word
spec fn entered(w: Work, m: MachO, start: u64, end: u64) -> Work {
    let n = (end - start) / 4;
    let counts = Counts {
        functions: w.counts.functions.wrapping_add(1),
        stack_tainted: if super::hands_out_stack(m, start, n) {
            w.counts.stack_tainted.wrapping_add(1)
        } else {
            w.counts.stack_tainted
        },
        ..w.counts
    };
    Work { counts, ..w }
}

proof fn lemma_functions_grew(
    w: Work,
    m: MachO,
    rate: (u32, u32),
    fns: Seq<(u64, u64)>,
    k: int,
    to: int,
)
    requires
        0 <= k <= to <= fns.len(),
        forall|j: int| 0 <= j < fns.len() ==> (#[trigger] fns[j]).0 <= fns[j].1,
    ensures
        grew(w.with_functions(m, rate, fns, k).built, w.with_functions(m, rate, fns, to).built),
    decreases to - k,
{
    let a = w.with_functions(m, rate, fns, k);
    if k < to {
        lemma_functions_grew(w, m, rate, fns, k, to - 1);
        let b = w.with_functions(m, rate, fns, to - 1);
        let (start, end) = fns[to - 1];
        let n = (end - start) / 4;
        lemma_words_grew(entered(b, m, start, end), m, rate, start, n, 0, n);
        lemma_grew(a.built, b.built, w.with_functions(m, rate, fns, to).built);
    } else {
        assert(a.built.sites.is_prefix_of(a.built.sites));
    }
}

/// The rewriter in front of word `j` of function `k`
#[verifier::opaque]
spec fn in_front_of(m: MachO, opts: Options, k: int, j: int) -> Work {
    let fns = super::table_of(m).functions;
    let before = begun(m, opts).with_functions(m, opts.mem_rate, fns, k);
    let (start, end) = fns[k];
    entered(before, m, start, end).with_words(m, opts.mem_rate, start, (end - start) / 4, j)
}

/// The work before the first function
spec fn begun(m: MachO, opts: Options) -> Work {
    Work {
        built: Built::fresh(
            super::code_base(m),
            super::table_of(m).rooms,
            m.text().unwrap().addr,
        ),
        rng: rng::expanded(opts.seed),
        counts: Counts::none(),
        mem_site_addrs: Seq::empty(),
    }
}

#[verifier::rlimit(40)]
proof fn lemma_in_front(m: MachO, opts: Options, k: int, j: int)
    requires
        m.text() is Some,
        m.starts() is Some,
        0 <= k < super::table_of(m).functions.len(),
        0 <= j < (super::table_of(m).functions[k].1 - super::table_of(m).functions[k].0) / 4,
    ensures
        ({
            let fns = super::table_of(m).functions;
            let (start, end) = fns[k];
            let w = in_front_of(m, opts, k, j);
            &&& start < end
            &&& w.built.areas.len() > 0
            &&& w.built.areas[0].base == super::code_base(m)
            &&& w.built.areas[0].common == super::code_base(m)
            &&& w.built.areas[0].capacity is None
            &&& grew(w.built, super::worked(m, opts).built)
            &&& grew(
                w.with_word(m, opts.mem_rate, start, (end - start) / 4, j).built,
                super::worked(m, opts).built,
            )
        }),
{
    let fns = super::table_of(m).functions;
    let t = m.text().unwrap();
    let starts = m.starts().unwrap();
    super::lemma_functions_inside(
        m,
        starts,
        t.addr,
        t.addr.wrapping_add(t.size),
        starts.len() as int,
    );
    let (start, end) = fns[k];
    let n = (end - start) / 4;
    let rate = opts.mem_rate;
    let first = begun(m, opts);
    let before = first.with_functions(m, rate, fns, k);
    let inside = entered(before, m, start, end);
    let w = in_front_of(m, opts, k, j);
    reveal(in_front_of);
    let next = w.with_word(m, rate, start, n, j);
    let through = first.with_functions(m, rate, fns, k + 1);
    let last = super::worked(m, opts);
    assert(first.built.areas[0] == AreaView::fresh(super::code_base(m), None));
    lemma_functions_grew(first, m, rate, fns, 0, k);
    lemma_words_grew(inside, m, rate, start, n, 0, j);
    lemma_words_grew(inside, m, rate, start, n, j, n);
    lemma_words_grew(inside, m, rate, start, n, j + 1, n);
    assert(next == inside.with_words(m, rate, start, n, j + 1));
    assert(through == inside.with_words(m, rate, start, n, n));
    lemma_functions_grew(first, m, rate, fns, k + 1, fns.len() as int);
    lemma_grew(w.built, through.built, last.built);
    lemma_grew(next.built, through.built, last.built);
    assert(first.with_functions(m, rate, fns, 0) == first);
    assert(inside.with_words(m, rate, start, n, 0) == inside);
}

#[verifier::rlimit(40)]
proof fn lemma_taken(b: Built, hook: Hook, pc: u64, lo: int, hi: int)
    requires
        b.areas.len() > 0,
        b.areas[0].capacity is None,
        close(lo, hi),
        between(pc as int, lo, hi),
        between(b.areas[0].common as int, lo, hi),
        between(b.areas[0].base + 4 * b.areas[0].code.len(), lo, hi),
        b.areas[0].base % 4 == 0,
        leads_between(hook, lo, hi),
    ensures
        b.taker(hook, pc, 0) == Some(0int),
        b.reaches(hook, pc),
        ({
            let after = b.hooked(hook, pc);
            &&& after.sites.len() == b.sites.len() + 1
            &&& after.sites.last().addr == pc
            &&& after.sites.last().kind == trampoline::kind_of(hook)
        }),
{
    let a = b.areas[0];
    assert(a.end() == a.base + 4 * a.code.len());
    lemma_code(hook, pc, a.end(), a.common, lo, hi);
}

/// A site of that kind stands at the address.
pub open spec fn has_site(m: MachO, opts: Options, addr: u64, kind: SiteKind) -> bool {
    exists|i: int|
        0 <= i < super::worked(m, opts).built.sites.len() && (#[trigger] super::worked(
            m,
            opts,
        ).built.sites[i]).addr == addr && super::worked(m, opts).built.sites[i].kind == kind
}

/// Word `j` of the function belongs to no exclusive span: it is neither an
/// exclusive load nor a store, no load stands before it without its store, and
/// it is not the branch right after a store.
pub open spec fn is_free(m: MachO, start: u64, j: int) -> bool {
    let c = class_at(m, start, j);
    &&& !(c is ExclusiveLoad)
    &&& !(c is ExclusiveStore)
    &&& forall|l: int|
        0 <= l < j && #[trigger] class_at(m, start, l) is ExclusiveLoad ==> exists|x: int|
            l < x < j && #[trigger] class_at(m, start, x) is ExclusiveStore
    &&& j > 0 && class_at(m, start, j - 1) is ExclusiveStore ==> !(c is B || c is BCond || c is Cbz
        || c is Tbz)
}

/// Nothing marks the address as data in the code.
pub open spec fn is_code(m: MachO, pc: u64) -> bool {
    forall|i: int|
        0 <= i < m.code_data().len() ==> !((#[trigger] m.code_data()[i]).0 <= pc
            < m.code_data()[i].0.wrapping_add(m.code_data()[i].1 as u64))
}

/// One of the first `n` words computes an address on the stack.
pub open spec fn some_stack_address(m: MachO, start: u64, n: int) -> bool {
    exists|i: int| 0 <= i < n && #[trigger] class_at(m, start, i) is StackAddr
}

/// What word `i` of the code at `start` is
pub open spec fn class_at(m: MachO, start: u64, i: int) -> Class {
    super::class(m, (start + 4 * i) as u64)
}

proof fn lemma_open_load(m: MachO, start: u64, i: int)
    requires
        super::span_open(m, start, i),
    ensures
        exists|l: int|
            0 <= l < i && super::class(m, #[trigger] trampoline::word_addr(start, l))
                is ExclusiveLoad && forall|x: int|
                l < x < i ==> !(super::class(m, #[trigger] trampoline::word_addr(start, x))
                    is ExclusiveStore),
    decreases i,
{
    let c = super::class(m, trampoline::word_addr(start, i - 1));
    if c is ExclusiveLoad {
        assert(0 <= i - 1 < i);
    } else {
        lemma_open_load(m, start, i - 1);
        let l = choose|l: int|
            0 <= l < i - 1 && super::class(m, #[trigger] trampoline::word_addr(start, l))
                is ExclusiveLoad && forall|x: int|
                l < x < i - 1 ==> !(super::class(m, #[trigger] trampoline::word_addr(start, x))
                    is ExclusiveStore);
        assert forall|x: int| l < x < i implies !(super::class(
            m,
            #[trigger] trampoline::word_addr(start, x),
        ) is ExclusiveStore) by {
            if x == i - 1 {
            }
        }
        assert(0 <= l < i);
    }
}

#[verifier::rlimit(40)]
proof fn lemma_free(m: MachO, start: u64, j: int)
    requires
        is_free(m, start, j),
        0 <= j,
        start + 4 * j <= u64::MAX,
    ensures
        !super::in_span(m, start, j),
{
    assert forall|i: int| 0 <= i <= j implies #[trigger] trampoline::word_addr(start, i) == (start
        + 4 * i) as u64 by {
    }
    assert(trampoline::word_addr(start, j) == (start + 4 * j) as u64);
    if j > 0 {
        assert(trampoline::word_addr(start, j - 1) == (start + 4 * (j - 1)) as u64);
    }
    if super::span_open(m, start, j) {
        lemma_open_load(m, start, j);
        let l = choose|l: int|
            0 <= l < j && super::class(m, #[trigger] trampoline::word_addr(start, l))
                is ExclusiveLoad && forall|x: int|
                l < x < j ==> !(super::class(m, #[trigger] trampoline::word_addr(start, x))
                    is ExclusiveStore);
        assert(class_at(m, start, l) is ExclusiveLoad);
        let x = choose|x: int| l < x < j && #[trigger] class_at(m, start, x) is ExclusiveStore;
        assert(trampoline::word_addr(start, x) == (start + 4 * x) as u64);
    }
}

/// Where the instruction leads, if it says so itself
pub open spec fn target_of(c: Class) -> Option<u64> {
    match c {
        Class::B { target } => Some(target),
        Class::Bl { target } => Some(target),
        Class::BCond { cond: _, target } => Some(target),
        Class::Cbz { sf: _, rt: _, nonzero: _, target } => Some(target),
        Class::Tbz { rt: _, bit: _, nonzero: _, target } => Some(target),
        _ => None,
    }
}

/// The rewriter's code, with room for one more trampoline, lies between the
/// two bounds.
pub open spec fn code_between(m: MachO, opts: Options, lo: int, hi: int) -> bool {
    let area = super::worked(m, opts).built.areas[0];
    &&& between(super::code_base(m) as int, lo, hi)
    &&& super::code_base(m) + 4 * area.code.len() + 64 <= hi
}

/// No event is overlooked. In a function of the table, every backward branch,
/// every call, every jump through a register and every read of the counter
/// that is not data and stands in no exclusive span is a site of its kind,
/// wherever text and trampolines are so close that a branch reaches.
#[verifier::spinoff_prover]
#[verifier::rlimit(40)]
pub proof fn every_event_is_a_site(m: MachO, opts: Options, k: int, j: int, lo: int, hi: int)
    requires
        m.stub_place() is Some,
        m.text() is Some,
        m.starts() is Some,
        0 <= k < super::table_of(m).functions.len(),
        0 <= j < (super::table_of(m).functions[k].1 - super::table_of(m).functions[k].0) / 4,
        close(lo, hi),
        code_between(m, opts, lo, hi),
        ({
            let start = super::table_of(m).functions[k].0;
            let pc = (start + 4 * j) as u64;
            let c = super::class(m, pc);
            &&& between(start + 4 * j, lo, hi)
            &&& target_of(c) matches Some(t) ==> between(t as int, lo, hi)
            &&& is_free(m, start, j)
            &&& is_code(m, pc)
        }),
    ensures
        ({
            let pc = (super::table_of(m).functions[k].0 + 4 * j) as u64;
            match super::class(m, pc) {
                Class::B { target } => target <= pc ==> has_site(m, opts, pc, SiteKind::Branch),
                Class::BCond { cond: _, target } => target <= pc ==> has_site(
                    m,
                    opts,
                    pc,
                    SiteKind::Branch,
                ),
                Class::Cbz { sf: _, rt: _, nonzero: _, target } => target <= pc ==> has_site(
                    m,
                    opts,
                    pc,
                    SiteKind::Branch,
                ),
                Class::Tbz { rt: _, bit: _, nonzero: _, target } => target <= pc ==> has_site(
                    m,
                    opts,
                    pc,
                    SiteKind::Branch,
                ),
                Class::Br { rn: _ } => has_site(m, opts, pc, SiteKind::Branch),
                Class::Bl { target: _ } => has_site(m, opts, pc, SiteKind::Call),
                Class::Blr { rn } => rn != 30 ==> has_site(m, opts, pc, SiteKind::Call),
                Class::Counter { rt } => rt < 29 ==> has_site(m, opts, pc, SiteKind::Counter),
                _ => true,
            }
        }),
{
    let start = super::table_of(m).functions[k].0;
    let pc = (start + 4 * j) as u64;
    assert(pc == trampoline::word_addr(start, j));
    lemma_free(m, start, j);
    assert(!super::is_data(m, pc));
    let c = super::class(m, pc);
    if let Some(hook) = super::hook_of(c, pc) {
        lemma_leads(c, pc, lo, hi);
        lemma_event(m, opts, k, j, lo, hi, hook);
        lemma_kind(c, pc);
    } else {
        lemma_kind(c, pc);
    }
}

proof fn lemma_leads(c: Class, pc: u64, lo: int, hi: int)
    requires
        super::hook_of(c, pc) is Some,
        target_of(c) matches Some(t) ==> between(t as int, lo, hi),
    ensures
        leads_between(super::hook_of(c, pc).unwrap(), lo, hi),
{
}

proof fn lemma_kind(c: Class, pc: u64)
    ensures
        match c {
            Class::B { target } => target <= pc ==> hooks_as(c, pc, SiteKind::Branch),
            Class::BCond { cond: _, target } => target <= pc ==> hooks_as(c, pc, SiteKind::Branch),
            Class::Cbz { sf: _, rt: _, nonzero: _, target } => target <= pc ==> hooks_as(
                c,
                pc,
                SiteKind::Branch,
            ),
            Class::Tbz { rt: _, bit: _, nonzero: _, target } => target <= pc ==> hooks_as(
                c,
                pc,
                SiteKind::Branch,
            ),
            Class::Br { rn: _ } => hooks_as(c, pc, SiteKind::Branch),
            Class::Bl { target: _ } => hooks_as(c, pc, SiteKind::Call),
            Class::Blr { rn } => rn != 30 ==> hooks_as(c, pc, SiteKind::Call),
            Class::Counter { rt } => rt < 29 ==> hooks_as(c, pc, SiteKind::Counter),
            _ => true,
        },
{
}

spec fn hooks_as(c: Class, pc: u64, kind: SiteKind) -> bool {
    super::hook_of(c, pc) matches Some(hook) && trampoline::kind_of(hook) == kind
}

/// The segment's area takes a hook in front of any word.
proof fn lemma_room(m: MachO, opts: Options, k: int, j: int, lo: int, hi: int)
    requires
        m.text() is Some,
        m.starts() is Some,
        0 <= k < super::table_of(m).functions.len(),
        0 <= j < (super::table_of(m).functions[k].1 - super::table_of(m).functions[k].0) / 4,
        code_between(m, opts, lo, hi),
    ensures
        ({
            let b = in_front_of(m, opts, k, j).built;
            &&& b.areas.len() > 0
            &&& b.areas[0].capacity is None
            &&& between(b.areas[0].common as int, lo, hi)
            &&& between(b.areas[0].base + 4 * b.areas[0].code.len(), lo, hi)
            &&& b.areas[0].base % 4 == 0
        }),
{
    lemma_in_front(m, opts, k, j);
    let b = in_front_of(m, opts, k, j).built;
    let last = super::worked(m, opts).built;
    lemma_fits(
        super::code_base(m) as int,
        b.areas[0].code.len() as int,
        last.areas[0].code.len() as int,
        lo,
        hi,
    );
}

proof fn lemma_fits(base: int, len: int, most: int, lo: int, hi: int)
    requires
        between(base, lo, hi),
        0 <= len <= most,
        base + 4 * most + 64 <= hi,
    ensures
        between(base + 4 * len, lo, hi),
        base % 4 == 0,
{
}

proof fn lemma_word_hooked(w: Work, m: MachO, rate: (u32, u32), start: u64, n: int, j: int)
    requires
        ({
            let pc = trampoline::word_addr(start, j);
            &&& !super::is_data(m, pc)
            &&& !super::in_span(m, start, j)
            &&& super::hook_of(super::class(m, pc), pc) is Some
        }),
    ensures
        ({
            let pc = trampoline::word_addr(start, j);
            let hook = super::hook_of(super::class(m, pc), pc).unwrap();
            w.with_word(m, rate, start, n, j).built == super::base_for(w.built, hook, pc).hooked(
                hook,
                pc,
            )
        }),
{
}

#[verifier::rlimit(40)]
proof fn lemma_event(m: MachO, opts: Options, k: int, j: int, lo: int, hi: int, hook: Hook)
    requires
        m.text() is Some,
        m.starts() is Some,
        0 <= k < super::table_of(m).functions.len(),
        0 <= j < (super::table_of(m).functions[k].1 - super::table_of(m).functions[k].0) / 4,
        close(lo, hi),
        code_between(m, opts, lo, hi),
        ({
            let start = super::table_of(m).functions[k].0;
            let pc = trampoline::word_addr(start, j);
            &&& between(pc as int, lo, hi)
            &&& !super::is_data(m, pc)
            &&& !super::in_span(m, start, j)
            &&& super::hook_of(super::class(m, pc), pc) == Some(hook)
        }),
        leads_between(hook, lo, hi),
    ensures
        has_site(
            m,
            opts,
            trampoline::word_addr(super::table_of(m).functions[k].0, j),
            trampoline::kind_of(hook),
        ),
{
    let (start, end) = super::table_of(m).functions[k];
    let n = (end - start) / 4;
    let pc = trampoline::word_addr(start, j);
    let w = in_front_of(m, opts, k, j);
    lemma_in_front(m, opts, k, j);
    lemma_room(m, opts, k, j, lo, hi);
    lemma_word_hooked(w, m, opts.mem_rate, start, n, j);
    let b = super::base_for(w.built, hook, pc);
    assert(b.areas == w.built.areas && b.sites == w.built.sites);
    lemma_taken(b, hook, pc, lo, hi);
    lemma_listed(m, opts, b.hooked(hook, pc), pc, trampoline::kind_of(hook));
}

proof fn lemma_listed(m: MachO, opts: Options, b: Built, pc: u64, kind: SiteKind)
    requires
        grew(b, super::worked(m, opts).built),
        b.sites.len() > 0,
        b.sites.last().addr == pc,
        b.sites.last().kind == kind,
    ensures
        has_site(m, opts, pc, kind),
{
    let sites = super::worked(m, opts).built.sites;
    assert(sites[b.sites.len() - 1] == b.sites.last());
}

/// With a rate of one no load or store is overlooked either, but those through
/// the stack or frame pointer in a function that hands out no stack address.
#[verifier::spinoff_prover]
#[verifier::rlimit(80)]
pub proof fn every_access_is_a_site(m: MachO, opts: Options, k: int, j: int, lo: int, hi: int)
    requires
        m.stub_place() is Some,
        m.text() is Some,
        m.starts() is Some,
        0 <= k < super::table_of(m).functions.len(),
        0 <= j < (super::table_of(m).functions[k].1 - super::table_of(m).functions[k].0) / 4,
        close(lo, hi),
        code_between(m, opts, lo, hi),
        opts.mem_rate.0 == opts.mem_rate.1,
        opts.mem_rate.0 > 0,
        ({
            let (start, end) = super::table_of(m).functions[k];
            let pc = (start + 4 * j) as u64;
            let c = super::class(m, pc);
            &&& between(start + 4 * j, lo, hi)
            &&& c matches Class::Mem { base } && (base == 29 || base == 31 ==> some_stack_address(
                m,
                start,
                (end - start) / 4,
            ))
            &&& is_free(m, start, j)
            &&& is_code(m, pc)
        }),
    ensures
        ({
            let pc = (super::table_of(m).functions[k].0 + 4 * j) as u64;
            has_site(m, opts, pc, SiteKind::Load) || has_site(m, opts, pc, SiteKind::Store)
        }),
{
    let (start, end) = super::table_of(m).functions[k];
    let pc = (start + 4 * j) as u64;
    assert(pc == trampoline::word_addr(start, j));
    lemma_free(m, start, j);
    lemma_start_before_end(m, k);
    let base = super::class(m, pc)->Mem_base;
    if base == 29 || base == 31 {
        lemma_hands_out(m, start, end);
    }
    assert(!super::is_data(m, pc));
    lemma_access(m, opts, k, j, lo, hi);
}

proof fn lemma_start_before_end(m: MachO, k: int)
    requires
        m.text() is Some,
        m.starts() is Some,
        0 <= k < super::table_of(m).functions.len(),
    ensures
        super::table_of(m).functions[k].0 < super::table_of(m).functions[k].1,
{
    let t = m.text().unwrap();
    let starts = m.starts().unwrap();
    super::lemma_functions_inside(
        m,
        starts,
        t.addr,
        t.addr.wrapping_add(t.size),
        starts.len() as int,
    );
}

proof fn lemma_hands_out(m: MachO, start: u64, end: u64)
    requires
        start < end,
        some_stack_address(m, start, (end - start) / 4),
    ensures
        super::hands_out_stack(m, start, (end - start) / 4),
{
    let i = choose|i: int|
        0 <= i < (end - start) / 4 && #[trigger] class_at(m, start, i) is StackAddr;
    assert(trampoline::word_addr(start, i) == (start + 4 * i) as u64);
}

proof fn lemma_access_hooked(w: Work, m: MachO, rate: (u32, u32), start: u64, n: int, j: int)
    requires
        rate.0 == rate.1,
        rate.0 > 0,
        ({
            let pc = trampoline::word_addr(start, j);
            &&& !super::is_data(m, pc)
            &&& !super::in_span(m, start, j)
            &&& super::class(m, pc) matches Class::Mem { base } && (base == 29 || base == 31
                ==> super::hands_out_stack(m, start, n))
        }),
    ensures
        ({
            let pc = trampoline::word_addr(start, j);
            let hook = Hook::Stub {
                guard: Guard::Always,
                call: false,
                tail: Tail::Replay(super::word(m, pc)),
            };
            w.with_word(m, rate, start, n, j).built == w.built.tried(pc).hooked(hook, pc)
        }),
{
    rng::lemma_scaled_below(rng::output(w.rng), rate.1 as u64);
}

#[verifier::rlimit(40)]
proof fn lemma_access(m: MachO, opts: Options, k: int, j: int, lo: int, hi: int)
    requires
        m.text() is Some,
        m.starts() is Some,
        0 <= k < super::table_of(m).functions.len(),
        0 <= j < (super::table_of(m).functions[k].1 - super::table_of(m).functions[k].0) / 4,
        close(lo, hi),
        code_between(m, opts, lo, hi),
        opts.mem_rate.0 == opts.mem_rate.1,
        opts.mem_rate.0 > 0,
        ({
            let (start, end) = super::table_of(m).functions[k];
            let pc = trampoline::word_addr(start, j);
            &&& between(pc as int, lo, hi)
            &&& !super::is_data(m, pc)
            &&& !super::in_span(m, start, j)
            &&& super::class(m, pc) matches Class::Mem { base } && (base == 29 || base == 31
                ==> super::hands_out_stack(m, start, (end - start) / 4))
        }),
    ensures
        ({
            let pc = trampoline::word_addr(super::table_of(m).functions[k].0, j);
            has_site(m, opts, pc, SiteKind::Load) || has_site(m, opts, pc, SiteKind::Store)
        }),
{
    let (start, end) = super::table_of(m).functions[k];
    let n = (end - start) / 4;
    let pc = trampoline::word_addr(start, j);
    let w = in_front_of(m, opts, k, j);
    lemma_in_front(m, opts, k, j);
    lemma_room(m, opts, k, j, lo, hi);
    lemma_access_hooked(w, m, opts.mem_rate, start, n, j);
    let hook = Hook::Stub {
        guard: Guard::Always,
        call: false,
        tail: Tail::Replay(super::word(m, pc)),
    };
    let b = w.built.tried(pc);
    lemma_taken(b, hook, pc, lo, hi);
    lemma_listed(m, opts, b.hooked(hook, pc), pc, trampoline::kind_of(hook));
}

proof fn lemma_no_access(w: Work, m: MachO, rate: (u32, u32), start: u64, n: int, i: int)
    requires
        rate.0 == 0,
    ensures
        w.with_words(m, rate, start, n, i).mem_site_addrs == w.mem_site_addrs,
    decreases i,
{
    if i > 0 {
        lemma_no_access(w, m, rate, start, n, i - 1);
    }
}

proof fn lemma_no_access_at_all(w: Work, m: MachO, rate: (u32, u32), fns: Seq<(u64, u64)>, k: int)
    requires
        rate.0 == 0,
    ensures
        w.with_functions(m, rate, fns, k).mem_site_addrs == w.mem_site_addrs,
    decreases k,
{
    if k > 0 {
        lemma_no_access_at_all(w, m, rate, fns, k - 1);
        let before = w.with_functions(m, rate, fns, k - 1);
        let (start, end) = fns[k - 1];
        let n = (end - start) / 4;
        lemma_no_access(entered(before, m, start, end), m, rate, start, n, n);
    }
}

/// With a rate of zero no load or store is hooked.
pub proof fn without_a_rate_no_access_is_a_site(m: MachO, opts: Options)
    requires
        m.stub_place() is Some,
        m.text() is Some,
        m.starts() is Some,
        opts.mem_rate.0 == 0,
    ensures
        super::worked(m, opts).mem_site_addrs.len() == 0,
{
    let fns = super::table_of(m).functions;
    lemma_no_access_at_all(begun(m, opts), m, opts.mem_rate, fns, fns.len() as int);
}

/// Every function that has a symbol is in the table of those to hook, from its
/// start to that of the next entry or the end of the text, unless it is a room.
pub proof fn every_named_function_is_hooked(m: MachO, i: int)
    requires
        m.text() is Some,
        m.starts() is Some,
        0 <= i < m.starts().unwrap().len(),
        ({
            let t = m.text().unwrap();
            let starts = m.starts().unwrap();
            &&& t.addr + t.size <= u64::MAX
            &&& t.addr <= starts[i] < t.addr + t.size
            &&& i + 1 < starts.len() ==> starts[i] < starts[i + 1]
            &&& exists|x: int|
                0 <= x < m.listed_symbols().len() && (#[trigger] m.listed_symbols()[x]).0
                    == starts[i]
            &&& forall|x: int|
                0 <= x < m.listed_symbols().len() && (#[trigger] m.listed_symbols()[x]).0
                    == starts[i] ==> !super::ROOM_PREFIX@.is_prefix_of(m.listed_symbols()[x].1)
        }),
    ensures
        ({
            let t = m.text().unwrap();
            let starts = m.starts().unwrap();
            let end = if i + 1 < starts.len() && starts[i + 1] < t.addr + t.size {
                starts[i + 1] as int
            } else {
                t.addr + t.size
            };
            super::table_of(m).functions.contains((starts[i], end as u64))
        }),
{
    let t = m.text().unwrap();
    let starts = m.starts().unwrap();
    let end = t.addr.wrapping_add(t.size);
    lemma_sorted(m, starts, t.addr, end, i, starts.len() as int);
}

proof fn lemma_sorted(m: MachO, starts: Seq<u64>, from: u64, end: u64, i: int, n: int)
    requires
        0 <= i < n <= starts.len(),
        from <= starts[i] < end,
        super::is_named(m, starts[i]),
        !super::is_room(m, starts[i]),
        super::entry_end(starts, i, end) > starts[i],
    ensures
        super::sorted_out(m, starts, from, end, n).functions.contains(
            (starts[i], super::entry_end(starts, i, end)),
        ),
    decreases n,
{
    let one = (starts[i], super::entry_end(starts, i, end));
    let after = super::sorted_out(m, starts, from, end, n).functions;
    if i < n - 1 {
        lemma_sorted(m, starts, from, end, i, n - 1);
        let before = super::sorted_out(m, starts, from, end, n - 1).functions;
        let x = choose|x: int| 0 <= x < before.len() && before[x] == one;
        assert(after[x] == one);
    } else {
        assert(after[after.len() - 1] == one);
    }
}

/// A branch that is hooked does what it did: its trampoline, reached from the
/// site by the same kind of branch, ends in a jump to the same target or
/// through the same register; a conditional one first passes by on the opposite
/// condition and goes on behind the site.
#[verifier::rlimit(40)]
pub proof fn a_hooked_branch_does_what_it_did(c: Class, site: u64, start: u64, common: u64)
    requires
        super::hook_of(c, site) is Some,
        trampoline::code_for(super::hook_of(c, site).unwrap(), site, start, common) is Some,
        c matches Class::BCond { cond, target } ==> cond < 14,
        c matches Class::Cbz { sf, rt, nonzero, target } ==> rt < 32,
        c matches Class::Tbz { rt, bit, nonzero, target } ==> rt < 32 && bit < 64,
        c matches Class::Br { rn } ==> rn < 32,
        c matches Class::Blr { rn } ==> rn < 32,
    ensures
        ({
            let code = trampoline::code_for(
                super::hook_of(c, site).unwrap(),
                site,
                start,
                common,
            ).unwrap();
            let w = code.words;
            let at = |i: int| trampoline::word_addr(start, i);
            let from = decode::class_of(code.site_word, site);
            let behind = Class::B { target: trampoline::word_addr(site, 1) };
            match c {
                Class::B { target } => from == (Class::B { target: start }) && w.len() == 4
                    && decode::class_of(w[3], at(3)) == (Class::B { target }),
                Class::Bl { target } => from == (Class::Bl { target: start }) && (w.len() == 4
                    ==> decode::class_of(w[3], at(3)) == (Class::B { target })) && (w.len() == 4
                    || w.len() == 6),
                Class::Br { rn } => from == (Class::B { target: start }) && w.len() == 4
                    && decode::class_of(w[3], at(3)) == (Class::Br { rn }),
                Class::Blr { rn } => from == (Class::Bl { target: start }) && w.len() == 4
                    && decode::class_of(w[3], at(3)) == (Class::Br { rn }),
                Class::BCond { cond, target } => {
                    &&& from == (Class::B { target: start })
                    &&& w.len() == 6
                    &&& decode::class_of(w[0], start) == (Class::BCond {
                        cond: decode::flipped(cond),
                        target: at(5),
                    })
                    &&& decode::class_of(w[4], at(4)) == (Class::B { target })
                    &&& decode::class_of(w[5], at(5)) == behind
                },
                Class::Cbz { sf, rt, nonzero, target } => {
                    &&& from == (Class::B { target: start })
                    &&& w.len() == 6
                    &&& decode::class_of(w[0], start) == (Class::Cbz {
                        sf,
                        rt,
                        nonzero: !nonzero,
                        target: at(5),
                    })
                    &&& decode::class_of(w[4], at(4)) == (Class::B { target })
                    &&& decode::class_of(w[5], at(5)) == behind
                },
                Class::Tbz { rt, bit, nonzero, target } => {
                    &&& from == (Class::B { target: start })
                    &&& w.len() == 6
                    &&& decode::class_of(w[0], start) == (Class::Tbz {
                        rt,
                        bit,
                        nonzero: !nonzero,
                        target: at(5),
                    })
                    &&& decode::class_of(w[4], at(4)) == (Class::B { target })
                    &&& decode::class_of(w[5], at(5)) == behind
                },
                _ => true,
            }
        }),
{
    match super::hook_of(c, site).unwrap() {
        Hook::Stub { guard, call, tail } => {
            match guard {
                Guard::Always => {
                    trampoline::a_trampoline_does_what_the_site_did(
                        call,
                        tail,
                        site,
                        start,
                        common,
                    );
                },
                _ => {
                    if let Tail::Jump { target, island } = tail {
                        trampoline::a_guard_passes_the_trampoline_by(
                            guard,
                            target,
                            site,
                            start,
                            common,
                        );
                    }
                },
            }
        },
        Hook::Counter { rt } => {},
    }
}

} // verus!
