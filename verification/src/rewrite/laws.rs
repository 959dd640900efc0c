//! What holds of the sites that the rewriter lists

use vstd::prelude::*;
use super::{Counts, Options, Work};
use crate::macho::MachO;
use crate::rng;
use crate::sites::{Site, SiteKind};
use crate::trampoline;
use crate::trampoline::{Built, Guard, Hook, Tail};

verus! {

/// Whether a function table goes up from entry to entry. One does unless its
/// distances run past the end of the address space.
pub open spec fn ascending(starts: Seq<u64>) -> bool {
    forall|i: int, j: int| 0 <= i < j < starts.len() ==> #[trigger] starts[i] < #[trigger] starts[j]
}

/// Whether each of these ranges ends before the next begins
spec fn apart(ranges: Seq<(u64, u64)>) -> bool {
    forall|i: int, j: int|
        0 <= i < j < ranges.len() ==> (#[trigger] ranges[i]).1 <= (#[trigger] ranges[j]).0
}

/// The functions to hook come one after the other.
proof fn lemma_apart(m: MachO, starts: Seq<u64>, from: u64, end: u64, n: int)
    requires
        ascending(starts),
        0 <= n <= starts.len(),
    ensures
        apart(super::sorted_out(m, starts, from, end, n).functions),
        forall|k: int, j: int|
            0 <= k < super::sorted_out(m, starts, from, end, n).functions.len() && n <= j
                < starts.len() && starts[j] < end ==> (#[trigger] super::sorted_out(
                m,
                starts,
                from,
                end,
                n,
            ).functions[k]).1 <= #[trigger] starts[j],
    decreases n,
{
    if n > 0 {
        lemma_apart(m, starts, from, end, n - 1);
        let before = super::sorted_out(m, starts, from, end, n - 1);
        let after = super::sorted_out(m, starts, from, end, n);
        let s = starts[n - 1];
        let e = super::entry_end(starts, n - 1, end);
        assert forall|k: int, j: int|
            0 <= k < after.functions.len() && n <= j < starts.len() && starts[j] < end implies (
        #[trigger] after.functions[k]).1 <= #[trigger] starts[j] by {
            if k < before.functions.len() {
                assert(after.functions[k] == before.functions[k]);
            } else {
                assert(after.functions[k] == (s, e));
                assert(starts[n] <= starts[j]);
            }
        }
        assert forall|i: int, j: int| 0 <= i < j < after.functions.len() implies (
        #[trigger] after.functions[i]).1 <= (#[trigger] after.functions[j]).0 by {
            assert(after.functions[i] == before.functions[i]);
            if j < before.functions.len() {
                assert(after.functions[j] == before.functions[j]);
            } else {
                assert(before.functions[i].1 <= starts[n - 1]);
            }
        }
    }
}

/// Whether the sites go up from one to the next and all lie below `bound`
spec fn in_order(sites: Seq<Site>, bound: int) -> bool {
    &&& forall|i: int, j: int|
        0 <= i < j < sites.len() ==> (#[trigger] sites[i]).addr < (#[trigger] sites[j]).addr
    &&& forall|i: int| 0 <= i < sites.len() ==> (#[trigger] sites[i]).addr < bound
}

proof fn lemma_hook_in_order(b: Built, hook: Hook, pc: u64)
    requires
        in_order(b.sites, pc as int),
    ensures
        in_order(b.hooked(hook, pc).sites, pc + 1),
        in_order(b.tried(pc).hooked(hook, pc).sites, pc + 1),
{
}

proof fn lemma_words_in_order(w: Work, m: MachO, rate: (u32, u32), start: u64, end: u64, i: int)
    requires
        start <= end,
        0 <= i <= (end - start) / 4,
        in_order(w.built.sites, start as int),
    ensures
        in_order(
            w.with_words(m, rate, start, (end - start) / 4, i).built.sites,
            start + 4 * i,
        ),
    decreases i,
{
    if i > 0 {
        lemma_words_in_order(w, m, rate, start, end, i - 1);
        let n = (end - start) / 4;
        let before = w.with_words(m, rate, start, n, i - 1);
        let pc = trampoline::word_addr(start, i - 1);
        assert(pc == start + 4 * (i - 1));
        let replay = Hook::Stub {
            guard: Guard::Always,
            call: false,
            tail: Tail::Replay(super::word(m, pc)),
        };
        lemma_hook_in_order(before.built, replay, pc);
        if let Some(hook) = super::hook_of(super::class(m, pc), pc) {
            lemma_hook_in_order(before.built, hook, pc);
        }
    }
}

/// The functions before number `k` end where it begins, at the latest.
spec fn bound_of(fns: Seq<(u64, u64)>, k: int) -> int {
    if k <= 0 {
        0
    } else {
        fns[k - 1].1 as int
    }
}

proof fn lemma_functions_in_order(w: Work, m: MachO, rate: (u32, u32), fns: Seq<(u64, u64)>, k: int)
    requires
        0 <= k <= fns.len(),
        apart(fns),
        forall|j: int| 0 <= j < fns.len() ==> (#[trigger] fns[j]).0 <= fns[j].1,
        w.built.sites.len() == 0,
    ensures
        in_order(w.with_functions(m, rate, fns, k).built.sites, bound_of(fns, k)),
    decreases k,
{
    if k > 0 {
        lemma_functions_in_order(w, m, rate, fns, k - 1);
        let before = w.with_functions(m, rate, fns, k - 1);
        let (start, end) = fns[k - 1];
        let n = (end - start) / 4;
        if k > 1 {
            assert(fns[k - 2].1 <= fns[k - 1].0);
        }
        let counts = Counts {
            functions: before.counts.functions.wrapping_add(1),
            stack_tainted: if super::hands_out_stack(m, start, n) {
                before.counts.stack_tainted.wrapping_add(1)
            } else {
                before.counts.stack_tainted
            },
            ..before.counts
        };
        lemma_words_in_order(Work { counts, ..before }, m, rate, start, end, n);
    }
}

/// The work before the first function
spec fn begun(m: MachO, opts: Options) -> Work {
    Work {
        built: Built::fresh(
            super::code_base(m),
            super::table_of(m).rooms,
            m.text().unwrap().addr,
        ),
        rng: rng::expanded(opts.seed),
        counts: Counts::none(),
        mem_site_addrs: Seq::empty(),
    }
}

/// The sites are listed in the order of their addresses, no address twice,
/// and all lie in the text.
pub proof fn sites_are_in_order(m: MachO, opts: Options)
    requires
        m.stub_place() is Some,
        m.text() is Some,
        m.starts() is Some,
        ascending(m.starts().unwrap()),
    ensures
        forall|i: int, j: int|
            0 <= i < j < super::worked(m, opts).built.sites.len() ==> (#[trigger] super::worked(
                m,
                opts,
            ).built.sites[i]).addr < (#[trigger] super::worked(m, opts).built.sites[j]).addr,
        forall|i: int|
            0 <= i < super::worked(m, opts).built.sites.len() ==> m.text().unwrap().addr <= (
            #[trigger] super::worked(m, opts).built.sites[i]).addr < m.text().unwrap().addr
                + m.text().unwrap().size,
{
    let table = super::table_of(m);
    let t = m.text().unwrap();
    let starts = m.starts().unwrap();
    let end = t.addr.wrapping_add(t.size);
    super::lemma_functions_inside(m, starts, t.addr, end, starts.len() as int);
    lemma_apart(m, starts, t.addr, end, starts.len() as int);
    lemma_functions_in_order(
        begun(m, opts),
        m,
        opts.mem_rate,
        table.functions,
        table.functions.len() as int,
    );
    super::only_hookable_words_are_touched(m, opts);
    let sites = super::worked(m, opts).built.sites;
    assert forall|i: int| 0 <= i < sites.len() implies t.addr <= (#[trigger] sites[i]).addr < t.addr
        + t.size by {
        assert(super::may_touch(m, table.functions, sites[i].addr));
        let (k, j) = choose|k: int, j: int|
            0 <= k < table.functions.len() && 0 <= j < (table.functions[k].1
                - table.functions[k].0) / 4 && sites[i].addr == #[trigger] trampoline::word_addr(
                table.functions[k].0,
                j,
            ) && !super::is_data(m, sites[i].addr) && !super::in_span(m, table.functions[k].0, j);
        assert(table.functions[k].0 + 4 * j < table.functions[k].1);
    }
}

/// A word that may be touched is none of a span.
proof fn lemma_not_in_span(m: MachO, fns: Seq<(u64, u64)>, addr: u64, k: int, j: int)
    requires
        apart(fns),
        forall|i: int| 0 <= i < fns.len() ==> (#[trigger] fns[i]).0 < fns[i].1,
        super::may_touch(m, fns, addr),
        0 <= k < fns.len(),
        0 <= j < (fns[k].1 - fns[k].0) / 4,
        super::in_span(m, fns[k].0, j),
    ensures
        addr != trampoline::word_addr(fns[k].0, j),
{
    let (a, b) = choose|a: int, b: int|
        0 <= a < fns.len() && 0 <= b < (fns[a].1 - fns[a].0) / 4 && addr
            == #[trigger] trampoline::word_addr(fns[a].0, b) && !super::is_data(m, addr)
            && !super::in_span(m, fns[a].0, b);
    assert(fns[a].0 + 4 * b < fns[a].1);
    assert(fns[k].0 + 4 * j < fns[k].1);
    if a < k {
        assert(fns[a].1 <= fns[k].0);
    } else if k < a {
        assert(fns[k].1 <= fns[a].0);
    }
}

/// No site and no site's patch lies in an exclusive span: not at the
/// exclusive load, nor at the store, nor between them, nor at the branch
/// right after the store.
pub proof fn spans_are_left_alone(m: MachO, opts: Options, k: int, j: int, i: int)
    requires
        m.stub_place() is Some,
        m.text() is Some,
        m.starts() is Some,
        ascending(m.starts().unwrap()),
        0 <= k < super::table_of(m).functions.len(),
        0 <= j < (super::table_of(m).functions[k].1 - super::table_of(m).functions[k].0) / 4,
        super::in_span(m, super::table_of(m).functions[k].0, j),
        0 <= i < super::worked(m, opts).built.sites.len(),
    ensures
        super::worked(m, opts).built.sites[i].addr != trampoline::word_addr(
            super::table_of(m).functions[k].0,
            j,
        ),
        super::worked(m, opts).built.patches[i].0 != trampoline::word_addr(
            super::table_of(m).functions[k].0,
            j,
        ),
{
    let fns = super::table_of(m).functions;
    let t = m.text().unwrap();
    let starts = m.starts().unwrap();
    let end = t.addr.wrapping_add(t.size);
    super::lemma_functions_inside(m, starts, t.addr, end, starts.len() as int);
    lemma_apart(m, starts, t.addr, end, starts.len() as int);
    super::only_hookable_words_are_touched(m, opts);
    lemma_not_in_span(m, fns, super::worked(m, opts).built.sites[i].addr, k, j);
}

/// The retry branch of a load and store loop is in its span.
pub proof fn a_retry_is_in_the_span(m: MachO, start: u64, l: int, s: int)
    requires
        0 <= l < s,
        super::class(m, trampoline::word_addr(start, l)) is ExclusiveLoad,
        super::class(m, trampoline::word_addr(start, s)) is ExclusiveStore,
        forall|i: int|
            l < i < s ==> !(super::class(m, #[trigger] trampoline::word_addr(start, i))
                is ExclusiveStore),
        super::may_retry(super::class(m, trampoline::word_addr(start, s + 1))),
    ensures
        forall|i: int| l <= i <= s + 1 ==> #[trigger] super::in_span(m, start, i),
{
    assert forall|i: int| l <= i <= s + 1 implies #[trigger] super::in_span(m, start, i) by {
        if l < i < s {
            lemma_open(m, start, l, i);
        }
    }
}

proof fn lemma_open(m: MachO, start: u64, l: int, i: int)
    requires
        0 <= l < i,
        super::class(m, trampoline::word_addr(start, l)) is ExclusiveLoad,
        forall|x: int|
            l < x < i ==> !(super::class(m, #[trigger] trampoline::word_addr(start, x))
                is ExclusiveStore),
    ensures
        super::span_open(m, start, i),
    decreases i,
{
    if l < i - 1 {
        lemma_open(m, start, l, i - 1);
        assert(!(super::class(m, trampoline::word_addr(start, i - 1)) is ExclusiveStore));
    }
}

/// The addresses of the load and store sites among the first `n`
pub open spec fn memory_sites(sites: Seq<Site>, n: int) -> Seq<u64>
    decreases n,
{
    if n <= 0 {
        Seq::empty()
    } else if sites[n - 1].kind == SiteKind::Load || sites[n - 1].kind == SiteKind::Store {
        memory_sites(sites, n - 1).push(sites[n - 1].addr)
    } else {
        memory_sites(sites, n - 1)
    }
}

proof fn lemma_memory_sites(sites: Seq<Site>, more: Seq<Site>, n: int)
    requires
        0 <= n <= sites.len() <= more.len(),
        forall|i: int| 0 <= i < n ==> sites[i] == #[trigger] more[i],
    ensures
        memory_sites(sites, n) == memory_sites(more, n),
    decreases n,
{
    if n > 0 {
        lemma_memory_sites(sites, more, n - 1);
        assert(more[n - 1] == sites[n - 1]);
    }
}

/// Whether the counts and the list of memory sites tell of the sites
spec fn tallied(w: Work) -> bool {
    let sites = w.built.sites;
    &&& sites.len() <= usize::MAX ==> sites.len() == w.counts.branch_sites + w.counts.call_sites
        + w.counts.counter_sites + w.counts.mem_sites
    &&& w.mem_site_addrs == memory_sites(sites, sites.len() as int)
}

proof fn lemma_word_tallied(w: Work, m: MachO, rate: (u32, u32), start: u64, n: int, i: int)
    requires
        tallied(w),
    ensures
        tallied(w.with_word(m, rate, start, n, i)),
{
    let after = w.with_word(m, rate, start, n, i);
    let sites = w.built.sites;
    if after.built.sites != sites {
        assert(after.built.sites.len() == sites.len() + 1);
        assert(after.built.sites.drop_last() =~= sites);
        lemma_memory_sites(sites, after.built.sites, sites.len() as int);
    }
}

proof fn lemma_words_tallied(w: Work, m: MachO, rate: (u32, u32), start: u64, n: int, i: int)
    requires
        tallied(w),
    ensures
        tallied(w.with_words(m, rate, start, n, i)),
    decreases i,
{
    if i > 0 {
        lemma_words_tallied(w, m, rate, start, n, i - 1);
        lemma_word_tallied(w.with_words(m, rate, start, n, i - 1), m, rate, start, n, i - 1);
    }
}

proof fn lemma_functions_tallied(w: Work, m: MachO, rate: (u32, u32), fns: Seq<(u64, u64)>, k: int)
    requires
        tallied(w),
    ensures
        tallied(w.with_functions(m, rate, fns, k)),
    decreases k,
{
    if k > 0 {
        lemma_functions_tallied(w, m, rate, fns, k - 1);
        let before = w.with_functions(m, rate, fns, k - 1);
        let (start, end) = fns[k - 1];
        let n = (end - start) / 4;
        let counts = Counts {
            functions: before.counts.functions.wrapping_add(1),
            stack_tainted: if super::hands_out_stack(m, start, n) {
                before.counts.stack_tainted.wrapping_add(1)
            } else {
                before.counts.stack_tainted
            },
            ..before.counts
        };
        lemma_words_tallied(Work { counts, ..before }, m, rate, start, n, n);
    }
}

/// The four counts of sites add up to the number of sites, and the addresses
/// listed as memory sites are those of the loads and stores among them, in
/// the same order.
pub proof fn sites_are_counted(m: MachO, opts: Options)
    requires
        m.stub_place() is Some,
        m.text() is Some,
        m.starts() is Some,
    ensures
        ({
            let w = super::worked(m, opts);
            &&& w.built.sites.len() <= usize::MAX ==> w.built.sites.len() == w.counts.branch_sites
                + w.counts.call_sites + w.counts.counter_sites + w.counts.mem_sites
            &&& w.mem_site_addrs == memory_sites(w.built.sites, w.built.sites.len() as int)
        }),
{
    let table = super::table_of(m);
    lemma_functions_tallied(
        begun(m, opts),
        m,
        opts.mem_rate,
        table.functions,
        table.functions.len() as int,
    );
}

} // verus!
