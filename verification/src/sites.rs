//! The table of hooked sites, and its form as text.

use vstd::prelude::*;
use crate::text;

verus! {

#[derive(Debug, Clone, Copy, PartialEq, Eq, Structural)]
pub enum SiteKind {
    Branch,
    Call,
    Load,
    Store,
    /// A read of the CPU's counter, answered with the virtual clock
    Counter,
}

/// One hooked instruction
#[derive(Debug, Clone, Copy, PartialEq, Eq, Structural)]
pub struct Site {
    /// Where the shared body returns to in this site's trampoline: what
    /// the supervisor sees when a quantum runs out here, and what a
    /// schedule trace calls `site`
    pub yield_pc: u64,
    /// The original instruction
    pub addr: u64,
    pub kind: SiteKind,
}

impl SiteKind {
    pub open spec fn called(self) -> Seq<char> {
        match self {
            SiteKind::Branch => "branch"@,
            SiteKind::Call => "call"@,
            SiteKind::Load => "load"@,
            SiteKind::Store => "store"@,
            SiteKind::Counter => "counter"@,
        }
    }

    #[must_use]
    pub fn name(self) -> (r: &'static str)
        ensures
            r@ == self.called(),
    {
        match self {
            SiteKind::Branch => "branch",
            SiteKind::Call => "call",
            SiteKind::Load => "load",
            SiteKind::Store => "store",
            SiteKind::Counter => "counter",
        }
    }

    /// The kind of that name
    pub open spec fn of_name(name: Seq<char>) -> Option<SiteKind> {
        if name == SiteKind::Branch.called() {
            Some(SiteKind::Branch)
        } else if name == SiteKind::Call.called() {
            Some(SiteKind::Call)
        } else if name == SiteKind::Load.called() {
            Some(SiteKind::Load)
        } else if name == SiteKind::Store.called() {
            Some(SiteKind::Store)
        } else if name == SiteKind::Counter.called() {
            Some(SiteKind::Counter)
        } else {
            None
        }
    }

    #[must_use]
    pub fn from_name(name: &str) -> (r: Option<SiteKind>)
        ensures
            r == SiteKind::of_name(name@),
    {
        let chars = text::chars_of(name);
        SiteKind::from_chars(&chars)
    }

    fn from_chars(name: &Vec<char>) -> (r: Option<SiteKind>)
        ensures
            r == SiteKind::of_name(name@),
    {
        if text::same_chars(name, &text::chars_of("branch")) {
            Some(SiteKind::Branch)
        } else if text::same_chars(name, &text::chars_of("call")) {
            Some(SiteKind::Call)
        } else if text::same_chars(name, &text::chars_of("load")) {
            Some(SiteKind::Load)
        } else if text::same_chars(name, &text::chars_of("store")) {
            Some(SiteKind::Store)
        } else if text::same_chars(name, &text::chars_of("counter")) {
            Some(SiteKind::Counter)
        } else {
            None
        }
    }
}

/// A site's line without its end: `<yield pc> <address> <kind>`, the numbers
/// in hexadecimal
pub open spec fn line_of(s: Site) -> Seq<char> {
    text::digits(s.yield_pc as nat, 16) + seq![' '] + text::digits(s.addr as nat, 16) + seq![' ']
        + s.kind.called()
}

/// The lines of the first `n` sites
pub open spec fn table_of(sites: Seq<Site>, n: int) -> Seq<char>
    decreases n,
{
    if n <= 0 {
        Seq::empty()
    } else {
        table_of(sites, n - 1) + line_of(sites[n - 1]) + seq!['\n']
    }
}

/// The site table as text, one `<yield pc> <address> <kind>` per line.
#[must_use]
pub fn sites_to_text(sites: &[Site]) -> (r: String)
    ensures
        r@ == table_of(sites@, sites@.len() as int),
{
    let mut out = String::new();
    let mut i: usize = 0;
    while i < sites.len()
        invariant
            i <= sites@.len(),
            out@ == table_of(sites@, i as int),
        decreases sites@.len() - i,
    {
        let ghost before = out@;
        let s = sites[i];
        text::push_hex_digits(&mut out, s.yield_pc);
        out.push(' ');
        text::push_hex_digits(&mut out, s.addr);
        out.push(' ');
        out.append(s.kind.name());
        out.push('\n');
        assert(out@ =~= before + line_of(s) + seq!['\n']);
        i += 1;
    }
    out
}

/// What a line says, if it is one of the table's: three words
pub open spec fn site_of(line: Seq<char>) -> Option<Site> {
    let words = text::pieces(line, ' ');
    if words.len() < 3 {
        None
    } else {
        match (
            text::unsigned_value(words[0], 16, u64::MAX as nat),
            text::unsigned_value(words[1], 16, u64::MAX as nat),
            SiteKind::of_name(words[2]),
        ) {
            (Some(y), Some(a), Some(kind)) => Some(Site { yield_pc: y as u64, addr: a as u64, kind }),
            _ => None,
        }
    }
}

/// The sites the first `n` lines give; a line that is none gives none
pub open spec fn sites_of(lines: Seq<Seq<char>>, n: int) -> Seq<Site>
    decreases n,
{
    if n <= 0 {
        Seq::empty()
    } else {
        match site_of(lines[n - 1]) {
            Some(s) => sites_of(lines, n - 1).push(s),
            None => sites_of(lines, n - 1),
        }
    }
}

fn read_site(line: &Vec<char>) -> (r: Option<Site>)
    ensures
        r == site_of(line@),
{
    let words = text::split(line, ' ');
    if words.len() < 3 {
        return None;
    }
    assert(words@[0]@ == text::pieces(line@, ' ')[0]);
    assert(words@[1]@ == text::pieces(line@, ' ')[1]);
    assert(words@[2]@ == text::pieces(line@, ' ')[2]);
    let yield_pc: Option<u64> = text::parse_unsigned(&words[0], 16, u64::MAX);
    let addr: Option<u64> = text::parse_unsigned(&words[1], 16, u64::MAX);
    let kind = SiteKind::from_chars(&words[2]);
    match (yield_pc, addr, kind) {
        (Some(yield_pc), Some(addr), Some(kind)) => Some(Site { yield_pc, addr, kind }),
        _ => None,
    }
}

#[must_use]
pub fn sites_from_text(text: &str) -> (r: Vec<Site>)
    ensures
        r@ == sites_of(text::lines_of(text@), text::lines_of(text@).len() as int),
{
    let lines = text::lines(text);
    let mut out: Vec<Site> = Vec::new();
    let mut i: usize = 0;
    while i < lines.len()
        invariant
            i <= lines.len(),
            lines.len() == text::lines_of(text@).len(),
            forall|k: int| 0 <= k < lines.len() ==> #[trigger] lines@[k]@ == text::lines_of(text@)[k],
            out@ == sites_of(text::lines_of(text@), i as int),
        decreases lines.len() - i,
    {
        assert(lines@[i as int]@ == text::lines_of(text@)[i as int]);
        match read_site(&lines[i]) {
            Some(s) => {
                out.push(s);
            },
            None => {},
        }
        i += 1;
    }
    out
}

proof fn lemma_kind_names(k: SiteKind)
    ensures
        SiteKind::of_name(k.called()) == Some(k),
        !k.called().contains(' '),
        !k.called().contains('\n'),
        k.called().len() > 0,
        k.called().last() != '\r',
{
    reveal_strlit("branch");
    reveal_strlit("call");
    reveal_strlit("load");
    reveal_strlit("store");
    reveal_strlit("counter");
    assert("branch"@.len() == 6 && "call"@.len() == 4 && "load"@.len() == 4 && "store"@.len() == 5
        && "counter"@.len() == 7);
    assert("call"@[0] == 'c' && "load"@[0] == 'l');
}

proof fn lemma_digits_plain(n: u64)
    ensures
        !text::digits(n as nat, 16).contains(' '),
        !text::digits(n as nat, 16).contains('\n'),
        text::unsigned_value(text::digits(n as nat, 16), 16, u64::MAX as nat) == Some(n as nat),
{
    text::digits_read_back(n as nat, 16);
    let d = text::digits(n as nat, 16);
    assert(d[0] != '+');
    assert(text::unsigned_digits(d) =~= d);
}

proof fn lemma_line(s: Site)
    ensures
        site_of(line_of(s)) == Some(s),
        !line_of(s).contains('\n'),
        line_of(s).len() > 0,
        line_of(s).last() != '\r',
{
    lemma_kind_names(s.kind);
    lemma_digits_plain(s.yield_pc);
    lemma_digits_plain(s.addr);
    let y = text::digits(s.yield_pc as nat, 16);
    let a = text::digits(s.addr as nat, 16);
    let k = s.kind.called();
    text::lemma_first_piece(a, ' ', k);
    text::lemma_first_piece(y, ' ', a + seq![' '] + k);
    assert(y + seq![' '] + (a + seq![' '] + k) =~= line_of(s));
    assert(text::pieces(k, ' ') =~= seq![k]);
    assert(text::pieces(line_of(s), ' ') =~= seq![y, a, k]);
    assert forall|i: int| 0 <= i < line_of(s).len() implies line_of(s)[i] != '\n' by {
        let l = line_of(s);
        if i < y.len() {
            assert(l[i] == y[i]);
        } else if i == y.len() {
        } else if i < y.len() + 1 + a.len() {
            assert(l[i] == a[i - y.len() - 1]);
        } else if i == y.len() + 1 + a.len() {
        } else {
            assert(l[i] == k[i - y.len() - 2 - a.len()]);
        }
    }
    assert(line_of(s).last() == k.last());
}

proof fn lemma_table(sites: Seq<Site>, n: int)
    requires
        0 <= n <= sites.len(),
    ensures
        text::lines_of(table_of(sites, n)).len() == n,
        forall|i: int|
            0 <= i < n ==> #[trigger] text::lines_of(table_of(sites, n))[i] == line_of(sites[i]),
        text::pieces(table_of(sites, n), '\n').last().len() == 0,
    decreases n,
{
    if n > 0 {
        lemma_table(sites, n - 1);
        lemma_line(sites[n - 1]);
        text::lemma_line_more(table_of(sites, n - 1), line_of(sites[n - 1]));
    }
}

proof fn lemma_lines_give(sites: Seq<Site>, lines: Seq<Seq<char>>, n: int)
    requires
        0 <= n <= sites.len(),
        n <= lines.len(),
        forall|i: int| 0 <= i < n ==> #[trigger] lines[i] == line_of(sites[i]),
    ensures
        sites_of(lines, n) == sites.take(n),
    decreases n,
{
    if n > 0 {
        lemma_lines_give(sites, lines, n - 1);
        lemma_line(sites[n - 1]);
        assert(sites.take(n) =~= sites.take(n - 1).push(sites[n - 1]));
    } else {
        assert(sites.take(0) =~= Seq::empty());
    }
}

/// A site table written as text reads back as it was.
pub proof fn a_table_reads_back(sites: Seq<Site>)
    ensures
        sites_of(
            text::lines_of(table_of(sites, sites.len() as int)),
            text::lines_of(table_of(sites, sites.len() as int)).len() as int,
        ) == sites,
{
    let n = sites.len() as int;
    lemma_table(sites, n);
    lemma_lines_give(sites, text::lines_of(table_of(sites, n)), n);
    assert(sites.take(n) =~= sites);
}

/// A kind is known by its name.
pub proof fn a_kind_is_known_by_its_name(k: SiteKind)
    ensures
        SiteKind::of_name(k.called()) == Some(k),
{
    reveal_strlit("branch");
    reveal_strlit("call");
    reveal_strlit("load");
    reveal_strlit("store");
    reveal_strlit("counter");
    assert("branch"@.len() == 6 && "call"@.len() == 4 && "load"@.len() == 4 && "store"@.len() == 5
        && "counter"@.len() == 7);
    assert("call"@[0] == 'c' && "load"@[0] == 'l');
}

} // verus!
