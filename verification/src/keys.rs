//! Sets of the loads, stores, branches and calls of a run's programs, and
//! the mask that leaves some of them out.

use vstd::prelude::*;
use crate::ddmin::Key;
use crate::fields;
use crate::replay;
use crate::sites::{Site, SiteKind};
use crate::text;
use crate::text::{chars_of, lines, parse_unsigned, push_hex_digits, split, string_of};
use crate::words;
use crate::words::{after_prefix, split_once_text};

verus! {

/// A program of the run file
pub struct Program {
    /// File name, which is what a mask line and the supervisor go by
    pub name: String,
    /// The original binary, for symbols
    pub original: String,
    pub sites: Vec<Site>,
}

pub open spec fn key_before(a: Key, b: Key) -> bool {
    a.0 < b.0 || (a.0 == b.0 && a.1 < b.1)
}

/// Keys come in order, each once.
pub open spec fn is_set(s: Seq<Key>) -> bool {
    forall|i: int, j: int|
        0 <= i < j < s.len() ==> key_before(#[trigger] s[i], #[trigger] s[j])
}

/// With a key, in its place
pub open spec fn put(s: Seq<Key>, k: Key) -> Seq<Key>
    decreases s.len(),
{
    if s.len() == 0 {
        seq![k]
    } else if s[0] == k {
        s
    } else if key_before(k, s[0]) {
        seq![k] + s
    } else {
        seq![s[0]] + put(s.skip(1), k)
    }
}

/// A set with a key holds that key and what it held before, in order.
pub proof fn a_set_holds_what_was_put(s: Seq<Key>, k: Key)
    requires
        is_set(s),
    ensures
        is_set(put(s, k)),
        forall|x: Key| #[trigger] put(s, k).contains(x) <==> s.contains(x) || x == k,
    decreases s.len(),
{
    let p = put(s, k);
    if s.len() == 0 {
        assert(p[0] == k);
    } else if s[0] == k {
        assert(s.contains(k));
    } else if key_before(k, s[0]) {
        assert(p[0] == k);
        assert forall|x: Key| #[trigger] p.contains(x) <==> s.contains(x) || x == k by {
            if s.contains(x) {
                let i = choose|i: int| 0 <= i < s.len() && s[i] == x;
                assert(p[i + 1] == x);
            }
            if p.contains(x) && x != k {
                let i = choose|i: int| 0 <= i < p.len() && p[i] == x;
                assert(s[i - 1] == x);
            }
        }
    } else {
        let rest = s.skip(1);
        let q = put(rest, k);
        assert forall|i: int, j: int| 0 <= i < j < rest.len() implies key_before(
            #[trigger] rest[i],
            #[trigger] rest[j],
        ) by {
            assert(rest[i] == s[i + 1] && rest[j] == s[j + 1]);
        }
        a_set_holds_what_was_put(rest, k);
        assert forall|x: Key| rest.contains(x) implies key_before(s[0], x) by {
            let i = choose|i: int| 0 <= i < rest.len() && rest[i] == x;
            assert(s[i + 1] == x);
        }
        assert forall|i: int, j: int| 0 <= i < j < p.len() implies key_before(
            #[trigger] p[i],
            #[trigger] p[j],
        ) by {
            assert(p[j] == q[j - 1]);
            assert(q.contains(q[j - 1]));
            if i > 0 {
                assert(p[i] == q[i - 1]);
            }
        }
        assert forall|x: Key| #[trigger] p.contains(x) <==> s.contains(x) || x == k by {
            if s.contains(x) {
                let i = choose|i: int| 0 <= i < s.len() && s[i] == x;
                if i == 0 {
                    assert(p[0] == x);
                } else {
                    assert(rest[i - 1] == x);
                    assert(q.contains(x));
                    let j = choose|j: int| 0 <= j < q.len() && q[j] == x;
                    assert(p[j + 1] == x);
                }
            }
            if x == k {
                assert(q.contains(x));
                let j = choose|j: int| 0 <= j < q.len() && q[j] == x;
                assert(p[j + 1] == x);
            }
            if p.contains(x) {
                let i = choose|i: int| 0 <= i < p.len() && p[i] == x;
                if i == 0 {
                    assert(s[0] == x);
                } else {
                    assert(q[i - 1] == x);
                    assert(q.contains(x));
                    if rest.contains(x) {
                        let j = choose|j: int| 0 <= j < rest.len() && rest[j] == x;
                        assert(s[j + 1] == x);
                    }
                }
            }
        }
    }
}

/// Put a key into a set.
pub fn put_key(v: &mut Vec<Key>, k: Key)
    ensures
        final(v)@ == put(old(v)@, k),
{
    let ghost e = v@;
    let n: usize = v.len();
    let mut i: usize = 0;
    assert(e.skip(0) =~= e);
    assert(e.take(0) + put(e, k) =~= put(e, k));
    while i < n
        invariant
            i <= n == v@.len(),
            e == v@,
            v@ == old(v)@,
            put(e, k) == e.take(i as int) + put(e.skip(i as int), k),
        decreases n - i,
    {
        let ghost rest = e.skip(i as int);
        assert(rest.skip(1) =~= e.skip(i + 1));
        if v[i].0 == k.0 && v[i].1 == k.1 {
            assert(e.take(i as int) + rest =~= e);
            return;
        }
        if k.0 < v[i].0 || (k.0 == v[i].0 && k.1 < v[i].1) {
            v.insert(i, k);
            assert(v@ =~= e.take(i as int) + (seq![k] + rest));
            return;
        }
        assert(e.take(i as int) + (seq![rest[0]] + put(e.skip(i + 1), k)) =~= e.take(i + 1) + put(
            e.skip(i + 1),
            k,
        ));
        i += 1;
    }
    v.push(k);
    assert(v@ =~= e.take(n as int) + seq![k]);
}

/// Whether the key is among `v`
pub fn holds(v: &Vec<Key>, k: Key) -> (r: bool)
    ensures
        r == v@.contains(k),
{
    let mut i: usize = 0;
    while i < v.len()
        invariant
            i <= v@.len(),
            forall|j: int| 0 <= j < i ==> v@[j] != k,
        decreases v@.len() - i,
    {
        if v[i].0 == k.0 && v[i].1 == k.1 {
            assert(v@[i as int] == k);
            return true;
        }
        i += 1;
    }
    false
}

/// A set with all of `more`
pub open spec fn put_all(s: Seq<Key>, more: Seq<Key>, n: int) -> Seq<Key>
    decreases n,
{
    if n <= 0 {
        s
    } else {
        put(put_all(s, more, n - 1), more[n - 1])
    }
}

/// Both sets in one
pub fn union(a: &Vec<Key>, b: &Vec<Key>) -> (r: Vec<Key>)
    ensures
        r@ == put_all(a@, b@, b@.len() as int),
{
    let mut out = copy(a);
    let mut i: usize = 0;
    while i < b.len()
        invariant
            i <= b@.len(),
            out@ == put_all(a@, b@, i as int),
        decreases b@.len() - i,
    {
        put_key(&mut out, b[i]);
        i += 1;
    }
    out
}

pub fn copy(v: &Vec<Key>) -> (r: Vec<Key>)
    ensures
        r@ == v@,
{
    let mut out: Vec<Key> = Vec::new();
    let mut i: usize = 0;
    while i < v.len()
        invariant
            i <= v@.len(),
            out@ == v@.take(i as int),
        decreases v@.len() - i,
    {
        out.push(v[i]);
        i += 1;
    }
    assert(v@.take(i as int) =~= v@);
    out
}

pub open spec fn is_memory(kind: SiteKind) -> bool {
    kind == SiteKind::Load || kind == SiteKind::Store
}

/// With the first `n` sites of program `p` that are loads and stores, or
/// that are not
pub open spec fn sites_in(s: Seq<Key>, p: u64, sites: Seq<Site>, memory: bool, n: int) -> Seq<Key>
    decreases n,
{
    if n <= 0 {
        s
    } else {
        let before = sites_in(s, p, sites, memory, n - 1);
        if is_memory(sites[n - 1].kind) == memory {
            put(before, (p, sites[n - 1].yield_pc))
        } else {
            before
        }
    }
}

/// The loads and stores of the first `n` programs, or what else is hooked
pub open spec fn kind_in(programs: Seq<Program>, memory: bool, n: int) -> Seq<Key>
    decreases n,
{
    if n <= 0 {
        Seq::empty()
    } else {
        let sites = programs[n - 1].sites@;
        sites_in(
            kind_in(programs, memory, n - 1),
            (n - 1) as u64,
            sites,
            memory,
            sites.len() as int,
        )
    }
}

/// Every key is of a program there is.
pub open spec fn known(s: Seq<Key>, programs: int) -> bool {
    forall|i: int| 0 <= i < s.len() ==> (#[trigger] s[i]).0 < programs
}

proof fn lemma_put_known(s: Seq<Key>, k: Key, n: int)
    requires
        known(s, n),
        k.0 < n,
    ensures
        known(put(s, k), n),
    decreases s.len(),
{
    if s.len() > 0 && s[0] != k && !key_before(k, s[0]) {
        let rest = s.skip(1);
        assert forall|i: int| 0 <= i < rest.len() implies (#[trigger] rest[i]).0 < n by {
            assert(rest[i] == s[i + 1]);
        }
        lemma_put_known(rest, k, n);
        let p = put(s, k);
        assert forall|i: int| 0 <= i < p.len() implies (#[trigger] p[i]).0 < n by {
            if i == 0 {
                assert(p[0] == s[0]);
            } else {
                assert(p[i] == put(rest, k)[i - 1]);
            }
        }
    } else if s.len() > 0 && s[0] != k {
        let p = put(s, k);
        assert forall|i: int| 0 <= i < p.len() implies (#[trigger] p[i]).0 < n by {
            if i > 0 {
                assert(p[i] == s[i - 1]);
            }
        }
    }
}

pub proof fn lemma_put_all_known(s: Seq<Key>, more: Seq<Key>, n: int, programs: int)
    requires
        known(s, programs),
        known(more, programs),
        n <= more.len(),
    ensures
        known(put_all(s, more, n), programs),
    decreases n,
{
    if n > 0 {
        lemma_put_all_known(s, more, n - 1, programs);
        assert(more[n - 1].0 < programs);
        lemma_put_known(put_all(s, more, n - 1), more[n - 1], programs);
    }
}

/// The loads and stores of all programs, or what else is hooked
pub fn of_kind(programs: &Vec<Program>, memory: bool) -> (r: Vec<Key>)
    ensures
        r@ == kind_in(programs@, memory, programs@.len() as int),
        known(r@, programs@.len() as int),
{
    let mut out: Vec<Key> = Vec::new();
    let mut p: usize = 0;
    while p < programs.len()
        invariant
            p <= programs@.len(),
            out@ == kind_in(programs@, memory, p as int),
            known(out@, programs@.len() as int),
        decreases programs@.len() - p,
    {
        let ghost was = out@;
        let sites = &programs[p].sites;
        let mut i: usize = 0;
        while i < sites.len()
            invariant
                i <= sites@.len(),
                p < programs@.len(),
                out@ == sites_in(was, p as u64, sites@, memory, i as int),
                known(out@, programs@.len() as int),
            decreases sites@.len() - i,
        {
            let mem: bool = match sites[i].kind {
                SiteKind::Load | SiteKind::Store => true,
                _ => false,
            };
            if mem == memory {
                proof {
                    lemma_put_known(
                        out@,
                        (p as u64, sites@[i as int].yield_pc),
                        programs@.len() as int,
                    );
                }
                put_key(&mut out, (p as u64, sites[i].yield_pc));
            }
            i += 1;
        }
        p += 1;
    }
    out
}

/// The mask: a line for each of the first `n` keys that is not allowed
pub open spec fn mask(
    universe: Seq<Key>,
    programs: Seq<Program>,
    allowed: Seq<Key>,
    n: int,
) -> Seq<char>
    decreases n,
{
    if n <= 0 {
        Seq::empty()
    } else {
        let k = universe[n - 1];
        let before = mask(universe, programs, allowed, n - 1);
        if allowed.contains(k) {
            before
        } else {
            before + programs[k.0 as int].name@ + seq![' '] + text::digits(
                k.1 as nat,
                16,
            ) + seq!['\n']
        }
    }
}

/// The mask of a run in which a switch may happen at the `allowed` of the
/// sites of `universe` only
pub fn mask_for(universe: &Vec<Key>, programs: &Vec<Program>, allowed: &Vec<Key>) -> (r: String)
    requires
        known(universe@, programs@.len() as int),
    ensures
        r@ == mask(universe@, programs@, allowed@, universe@.len() as int),
{
    let mut out = String::new();
    let count: usize = programs.len();
    let mut i: usize = 0;
    while i < universe.len()
        invariant
            count == programs@.len(),
            i <= universe@.len(),
            known(universe@, programs@.len() as int),
            out@ == mask(universe@, programs@, allowed@, i as int),
        decreases universe@.len() - i,
    {
        let k: Key = universe[i];
        if !holds(allowed, k) {
            assert(universe@[i as int].0 < programs@.len());
            let ghost was = out@;
            out.append(programs[k.0 as usize].name.as_str());
            out.push(' ');
            push_hex_digits(&mut out, k.1);
            out.push('\n');
            assert(out@ =~= was + programs@[k.0 as int].name@ + seq![' '] + text::digits(
                k.1 as nat,
                16,
            ) + seq!['\n']);
        }
        i += 1;
    }
    out
}

/// Which run-file entry each process was a life of, as the first `n` lines
/// of a report say
pub open spec fn entries_of(lines: Seq<Seq<char>>, n: int) -> fields::Entries
    decreases n,
{
    if n <= 0 {
        Seq::empty()
    } else {
        let before = entries_of(lines, n - 1);
        match words::split_at_text(lines[n - 1], ".entry="@) {
            Some((p, e)) => if replay::number(e) is Some {
                fields::put(before, p, e)
            } else {
                before
            },
            None => before,
        }
    }
}

/// The first of the words from number `i` on that names a site: what it
/// says
pub open spec fn site_word(ws: Seq<Seq<char>>, i: int) -> Option<Seq<char>>
    decreases ws.len() - i,
{
    if i < 0 || i >= ws.len() {
        None
    } else {
        match words::after(ws[i], "site=0x"@) {
            Some(v) => Some(v),
            None => site_word(ws, i + 1),
        }
    }
}

/// The site that a line of a trace names
pub open spec fn site_in(line: Seq<char>) -> Option<u64> {
    match site_word(text::pieces(line, ' '), 0) {
        Some(v) => match text::unsigned_value(v, 16, u64::MAX as nat) {
            Some(n) => Some(n as u64),
            None => None,
        },
        None => None,
    }
}

/// Where a line of a trace says that a process switched
pub open spec fn key_in(entries: fields::Entries, line: Seq<char>) -> Option<Key> {
    match (fields::find(entries, text::pieces(line, ' ')[0]), site_in(line)) {
        (Some(e), Some(pc)) => match replay::number(e) {
            Some(p) => Some((p, pc)),
            None => None,
        },
        _ => None,
    }
}

/// The sites of `among` in the first `n` lines of a trace, in order of
/// first appearance
pub open spec fn switched(
    entries: fields::Entries,
    lines: Seq<Seq<char>>,
    among: Seq<Key>,
    n: int,
) -> Seq<Key>
    decreases n,
{
    if n <= 0 {
        Seq::empty()
    } else {
        let before = switched(entries, lines, among, n - 1);
        match key_in(entries, lines[n - 1]) {
            Some(k) => if among.contains(k) && !before.contains(k) {
                before.push(k)
            } else {
                before
            },
            None => before,
        }
    }
}

/// The sites of `among` at which a traced run switched
pub open spec fn switches(report: Seq<char>, trace: Seq<char>, among: Seq<Key>) -> Seq<Key> {
    let r = text::lines_of(report);
    let t = text::lines_of(trace);
    switched(entries_of(r, r.len() as int), t, among, t.len() as int)
}

fn read_entries(report: &str) -> (r: Vec<(String, String)>)
    ensures
        fields::pairs(r@) == entries_of(
            text::lines_of(report@),
            text::lines_of(report@).len() as int,
        ),
{
    let all = lines(report);
    let ghost ls = text::lines_of(report@);
    let mut out: Vec<(String, String)> = Vec::new();
    assert(fields::pairs(out@) =~= Seq::empty());
    let mut i: usize = 0;
    while i < all.len()
        invariant
            i <= all@.len() == ls.len(),
            forall|k: int| 0 <= k < all.len() ==> #[trigger] all@[k]@ == ls[k],
            fields::pairs(out@) == entries_of(ls, i as int),
        decreases all@.len() - i,
    {
        assert(all@[i as int]@ == ls[i as int]);
        match split_once_text(&all[i], ".entry=") {
            Some((p, e)) => {
                if parse_unsigned(&e, 10, u64::MAX).is_some() {
                    fields::set(&mut out, string_of(&p), string_of(&e));
                }
            },
            None => {},
        }
        i += 1;
    }
    out
}

fn read_key(entries: &Vec<(String, String)>, line: &Vec<char>) -> (r: Option<Key>)
    ensures
        r == key_in(fields::pairs(entries@), line@),
{
    let ws = split(line, ' ');
    let ghost pieces = text::pieces(line@, ' ');
    let mut site: Option<Vec<char>> = None;
    let mut i: usize = 0;
    while i < ws.len() && site.is_none()
        invariant
            i <= ws@.len() == pieces.len(),
            forall|k: int| 0 <= k < ws.len() ==> #[trigger] ws@[k]@ == pieces[k],
            match site {
                Some(v) => site_word(pieces, 0) == Some(v@),
                None => site_word(pieces, 0) == site_word(pieces, i as int),
            },
        decreases ws@.len() - i,
    {
        assert(ws@[i as int]@ == pieces[i as int]);
        site = after_prefix(&ws[i], "site=0x");
        i += 1;
    }
    let pc: Option<u64> = match site {
        Some(v) => parse_unsigned(&v, 16, u64::MAX),
        None => None,
    };
    proof {
        text::lemma_some_piece(line@, ' ');
    }
    assert(ws@[0]@ == pieces[0]);
    let name = string_of(&ws[0]);
    match (fields::get(entries, name.as_str()), pc) {
        (Some(e), Some(pc)) => match parse_unsigned(&chars_of(e.as_str()), 10, u64::MAX) {
            Some(p) => Some((p, pc)),
            None => None,
        },
        _ => None,
    }
}

/// The sites of `among` at which a traced run switched, in order of first
/// appearance. A process is its run-file entry's program.
pub fn switched_at(report: &str, trace: &str, among: &Vec<Key>) -> (r: Vec<Key>)
    ensures
        r@ == switches(report@, trace@, among@),
{
    let entries = read_entries(report);
    let ghost e = fields::pairs(entries@);
    let all = lines(trace);
    let ghost ls = text::lines_of(trace@);
    let mut out: Vec<Key> = Vec::new();
    let mut i: usize = 0;
    while i < all.len()
        invariant
            i <= all@.len() == ls.len(),
            e == fields::pairs(entries@),
            forall|k: int| 0 <= k < all.len() ==> #[trigger] all@[k]@ == ls[k],
            out@ == switched(e, ls, among@, i as int),
        decreases all@.len() - i,
    {
        assert(all@[i as int]@ == ls[i as int]);
        match read_key(&entries, &all[i]) {
            Some(k) => {
                if holds(among, k) && !holds(&out, k) {
                    out.push(k);
                }
            },
            None => {},
        }
        i += 1;
    }
    out
}

/// Only sites that were asked for are found, and each once.
pub proof fn switches_are_among_the_asked(
    entries: fields::Entries,
    lines: Seq<Seq<char>>,
    among: Seq<Key>,
    n: int,
)
    ensures
        forall|k: Key| #[trigger]
            switched(entries, lines, among, n).contains(k) ==> among.contains(k),
        switched(entries, lines, among, n).no_duplicates(),
    decreases n,
{
    if n > 0 {
        let before = switched(entries, lines, among, n - 1);
        switches_are_among_the_asked(entries, lines, among, n - 1);
        let after = switched(entries, lines, among, n);
        assert forall|k: Key| #[trigger] after.contains(k) implies among.contains(k) by {
            let i = choose|i: int| 0 <= i < after.len() && after[i] == k;
            if i < before.len() {
                assert(before[i] == k);
                assert(before.contains(k));
            }
        }
        assert forall|i: int, j: int| 0 <= i < after.len() && 0 <= j < after.len() && i
            != j implies after[i] != after[j] by {
            if i < before.len() {
                assert(before.contains(after[i]));
            }
            if j < before.len() {
                assert(before.contains(after[j]));
            }
        }
    }
}

proof fn lemma_sites_in(s: Seq<Key>, p: u64, sites: Seq<Site>, memory: bool, n: int, k: Key)
    requires
        n <= sites.len(),
        is_set(s),
    ensures
        is_set(sites_in(s, p, sites, memory, n)),
        sites_in(s, p, sites, memory, n).contains(k) <==> s.contains(k) || exists|i: int|
            0 <= i < n && k == (p, (#[trigger] sites[i]).yield_pc) && (sites[i].kind
                == SiteKind::Load || sites[i].kind == SiteKind::Store) == memory,
    decreases n,
{
    if n > 0 {
        lemma_sites_in(s, p, sites, memory, n - 1, k);
        let before = sites_in(s, p, sites, memory, n - 1);
        a_set_holds_what_was_put(before, (p, sites[n - 1].yield_pc));
        if exists|i: int|
            0 <= i < n - 1 && k == (p, (#[trigger] sites[i]).yield_pc) && (sites[i].kind
                == SiteKind::Load || sites[i].kind == SiteKind::Store) == memory {
            let i = choose|i: int|
                0 <= i < n - 1 && k == (p, (#[trigger] sites[i]).yield_pc) && (sites[i].kind
                    == SiteKind::Load || sites[i].kind == SiteKind::Store) == memory;
            assert(0 <= i < n);
        }
        if k == (p, sites[n - 1].yield_pc) && is_memory(sites[n - 1].kind) == memory {
            assert(0 <= n - 1 < n);
        }
    }
}

/// The sites of a kind are those of every program that are of it: the loads and
/// stores, or the rest.
pub proof fn the_sites_of_a_kind_are_all_of_it(programs: Seq<Program>, memory: bool, n: int, k: Key)
    requires
        0 <= n <= programs.len() <= u64::MAX,
    ensures
        is_set(kind_in(programs, memory, n)),
        kind_in(programs, memory, n).contains(k) <==> exists|p: int, i: int|
            0 <= p < n && 0 <= i < programs[p].sites@.len() && k == (
                p as u64,
                (#[trigger] programs[p].sites@[i]).yield_pc,
            ) && (programs[p].sites@[i].kind == SiteKind::Load || programs[p].sites@[i].kind
                == SiteKind::Store) == memory,
    decreases n,
{
    if n > 0 {
        the_sites_of_a_kind_are_all_of_it(programs, memory, n - 1, k);
        let sites = programs[n - 1].sites@;
        lemma_sites_in(
            kind_in(programs, memory, n - 1),
            (n - 1) as u64,
            sites,
            memory,
            sites.len() as int,
            k,
        );
        if exists|i: int|
            0 <= i < sites.len() && k == ((n - 1) as u64, (#[trigger] sites[i]).yield_pc) && (
            sites[i].kind == SiteKind::Load || sites[i].kind == SiteKind::Store) == memory {
            let i = choose|i: int|
                0 <= i < sites.len() && k == ((n - 1) as u64, (#[trigger] sites[i]).yield_pc) && (
                sites[i].kind == SiteKind::Load || sites[i].kind == SiteKind::Store) == memory;
            assert(programs[n - 1].sites@[i] == sites[i]);
        }
    }
}

/// A mask names every site of the universe that is not allowed, by its
/// program's name and its address, one to a line.
pub proof fn a_mask_names_what_is_not_allowed(
    universe: Seq<Key>,
    programs: Seq<Program>,
    allowed: Seq<Key>,
)
    ensures
        universe.len() == 0 ==> mask(universe, programs, allowed, 0) == Seq::<char>::empty(),
        universe.len() > 0 ==> {
            let n = universe.len() as int;
            let k = universe.last();
            let before = mask(universe.drop_last(), programs, allowed, n - 1);
            let all = mask(universe, programs, allowed, n);
            &&& allowed.contains(k) ==> all == before
            &&& !allowed.contains(k) ==> all == before + (programs[k.0 as int].name@ + seq![' ']
                + text::digits(k.1 as nat, 16) + seq!['\n'])
        },
{
    if universe.len() > 0 {
        let n = universe.len() as int;
        lemma_mask_prefix(universe, universe.drop_last(), programs, allowed, n - 1);
        let k = universe.last();
        let before = mask(universe, programs, allowed, n - 1);
        let name = programs[k.0 as int].name@;
        assert(before + name + seq![' '] + text::digits(k.1 as nat, 16) + seq!['\n'] =~= before + (
        name + seq![' '] + text::digits(k.1 as nat, 16) + seq!['\n']));
    }
}

proof fn lemma_mask_prefix(
    a: Seq<Key>,
    b: Seq<Key>,
    programs: Seq<Program>,
    allowed: Seq<Key>,
    n: int,
)
    requires
        n <= a.len(),
        n <= b.len(),
        forall|i: int| 0 <= i < n ==> a[i] == #[trigger] b[i],
    ensures
        mask(a, programs, allowed, n) == mask(b, programs, allowed, n),
    decreases n,
{
    if n > 0 {
        lemma_mask_prefix(a, b, programs, allowed, n - 1);
        assert(a[n - 1] == b[n - 1]);
    }
}

/// Every switch of a trace that is among those asked for is found.
pub proof fn every_asked_switch_is_found(
    entries: fields::Entries,
    lines: Seq<Seq<char>>,
    among: Seq<Key>,
    n: int,
    i: int,
    k: Key,
)
    requires
        0 <= i < n <= lines.len(),
        key_in(entries, lines[i]) == Some(k),
        among.contains(k),
    ensures
        switched(entries, lines, among, n).contains(k),
    decreases n,
{
    let after = switched(entries, lines, among, n);
    let before = switched(entries, lines, among, n - 1);
    if i < n - 1 {
        every_asked_switch_is_found(entries, lines, among, n - 1, i, k);
        let j = choose|j: int| 0 <= j < before.len() && before[j] == k;
        assert(after[j] == k);
    } else if !before.contains(k) {
        assert(after[before.len() as int] == k);
    }
}

} // verus!
