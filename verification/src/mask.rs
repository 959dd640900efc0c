//! Which stubs a quantum may not end at.

use vstd::prelude::*;
use crate::sorting;
use crate::sorting::order_of;
use crate::text;
use crate::text::{chars_of, lines, parse_unsigned, same_chars};
use crate::words;
use crate::words::split_once_last;

verus! {

/// Expiries that may be deferred in a row. A loop of nothing but masked
/// stubs would otherwise keep the baton for ever.
pub const MAX_DEFERRED: u32 = 100_000;

/// `program address`: the address, if the line is of that program. A
/// program's name may hold spaces; an address cannot.
pub open spec fn pc_in(line: Seq<char>, program: Seq<char>) -> Option<u64> {
    match words::split_at_last(line, " "@) {
        Some((name, pc)) => if name == program {
            match text::unsigned_value(pc, 16, u64::MAX as nat) {
                Some(n) => Some(n as u64),
                None => None,
            }
        } else {
            None
        },
        None => None,
    }
}

/// The addresses of the first `n` lines, as loaded
pub open spec fn pcs_in(lines: Seq<Seq<char>>, program: Seq<char>, slide: u64, n: int) -> Seq<u64>
    decreases n,
{
    if n <= 0 {
        Seq::empty()
    } else {
        let before = pcs_in(lines, program, slide, n - 1);
        match pc_in(lines[n - 1], program) {
            Some(pc) => before.push(pc.wrapping_add(slide)),
            None => before,
        }
    }
}

/// The addresses that a mask names
pub open spec fn pcs_of(mask: Seq<char>, program: Seq<char>, slide: u64) -> Seq<u64> {
    let ls = text::lines_of(mask);
    pcs_in(ls, program, slide, ls.len() as int)
}

fn read_pc(line: &Vec<char>, program: &Vec<char>) -> (r: Option<u64>)
    ensures
        r == pc_in(line@, program@),
{
    match split_once_last(line, " ") {
        Some((name, pc)) => if same_chars(&name, program) {
            parse_unsigned(&pc, 16, u64::MAX)
        } else {
            None
        },
        None => None,
    }
}

/// The stubs of one program at which a quantum may not end: their return
/// addresses, as loaded, in order. Every stub still counts, so a run that
/// never expires at a masked site is the unmasked run.
pub struct Mask {
    pub pcs: Vec<u64>,
    /// Expiries deferred in a row
    pub deferred: u32,
}

/// What an expiry at a stub comes to
#[derive(Debug, Clone, Copy, PartialEq, Eq, Structural)]
pub enum Expiry {
    /// Not here: the switch falls on the next hook.
    Deferred,
    Switch,
    /// The stub is masked, but too many before it were.
    Overdue,
}

impl Mask {
    /// In order, for the search
    pub open spec fn wf(self) -> bool {
        forall|i: int, j: int|
            0 <= i <= j < self.pcs@.len() ==> #[trigger] self.pcs@[i] <= #[trigger] self.pcs@[j]
    }

    /// The mask of a program that is loaded `slide` above its addresses in
    /// the file
    pub fn load(mask: &str, program: &str, slide: u64) -> (r: Mask)
        ensures
            r.wf(),
            r.deferred == 0,
            forall|pc: u64|
                r.pcs@.contains(pc) <==> #[trigger] pcs_of(mask@, program@, slide).contains(pc),
    {
        let name = chars_of(program);
        let all = lines(mask);
        let ghost ls = text::lines_of(mask@);
        let mut found: Vec<u64> = Vec::new();
        let mut i: usize = 0;
        while i < all.len()
            invariant
                i <= all@.len() == ls.len(),
                name@ == program@,
                forall|k: int| 0 <= k < all.len() ==> #[trigger] all@[k]@ == ls[k],
                found@ == pcs_in(ls, program@, slide, i as int),
            decreases all@.len() - i,
        {
            assert(all@[i as int]@ == ls[i as int]);
            match read_pc(&all[i], &name) {
                Some(pc) => found.push(pc.wrapping_add(slide)),
                None => {},
            }
            i += 1;
        }
        let order = order_of(&found);
        let ghost o = sorting::numbers(order@);
        let ghost wanted = found@;
        let mut pcs: Vec<u64> = Vec::new();
        let mut k: usize = 0;
        while k < order.len()
            invariant
                k <= order@.len() == found@.len(),
                o == sorting::numbers(order@),
                sorting::sorts(o, found@),
                pcs@.len() == k,
                forall|j: int| 0 <= j < k ==> #[trigger] pcs@[j] == found@[o[j]],
            decreases order@.len() - k,
        {
            assert(o[k as int] == order@[k as int]);
            pcs.push(found[order[k]]);
            k += 1;
        }
        proof {
            assert forall|i: int, j: int| 0 <= i <= j < pcs@.len() implies #[trigger] pcs@[i]
                <= #[trigger] pcs@[j] by {
                assert(pcs@[i] == found@[o[i]] && pcs@[j] == found@[o[j]]);
            }
            assert forall|pc: u64| pcs@.contains(pc) <==> #[trigger] wanted.contains(pc) by {
                if pcs@.contains(pc) {
                    let j = choose|j: int| 0 <= j < pcs@.len() && pcs@[j] == pc;
                    assert(wanted[o[j]] == pc);
                }
                if wanted.contains(pc) {
                    let i = choose|i: int| 0 <= i < wanted.len() && wanted[i] == pc;
                    sorting::lemma_permutes_onto(o, wanted.len() as int, i);
                    let j = choose|j: int| 0 <= j < o.len() && o[j] == i;
                    assert(pcs@[j] == pc);
                }
            }
        }
        Mask { pcs, deferred: 0 }
    }

    fn holds(&self, pc: u64) -> (r: bool)
        requires
            self.wf(),
        ensures
            r == self.pcs@.contains(pc),
    {
        let mut lo: usize = 0;
        let mut hi: usize = self.pcs.len();
        while lo < hi
            invariant
                self.wf(),
                lo <= hi <= self.pcs@.len(),
                forall|i: int| 0 <= i < lo ==> #[trigger] self.pcs@[i] < pc,
                forall|i: int| hi <= i < self.pcs@.len() ==> #[trigger] self.pcs@[i] > pc,
            decreases hi - lo,
        {
            let mid: usize = lo + (hi - lo) / 2;
            let here: u64 = self.pcs[mid];
            if here == pc {
                assert(self.pcs@[mid as int] == pc);
                return true;
            }
            if here < pc {
                lo = mid + 1;
            } else {
                hi = mid;
            }
        }
        false
    }

    /// What an expiry at `stub_pc` comes to
    pub open spec fn expiry(self, stub_pc: u64) -> Expiry {
        if !self.pcs@.contains(stub_pc) {
            Expiry::Switch
        } else if self.deferred < MAX_DEFERRED {
            Expiry::Deferred
        } else {
            Expiry::Overdue
        }
    }

    /// A quantum ran out at a stub.
    pub fn expired_at(&mut self, stub_pc: u64) -> (r: Expiry)
        requires
            old(self).wf(),
        ensures
            final(self).wf(),
            r == old(self).expiry(stub_pc),
            final(self).pcs == old(self).pcs,
            final(self).deferred == (if r == Expiry::Deferred {
                (old(self).deferred + 1) as u32
            } else {
                0
            }),
    {
        if !self.holds(stub_pc) {
            self.deferred = 0;
            return Expiry::Switch;
        }
        if self.deferred < MAX_DEFERRED {
            self.deferred = self.deferred + 1;
            return Expiry::Deferred;
        }
        self.deferred = 0;
        Expiry::Overdue
    }
}

/// A quantum is put off only so often in a row, and only at a masked stub.
pub proof fn a_switch_is_not_put_off_for_ever(m: Mask, stub_pc: u64)
    ensures
        m.expiry(stub_pc) == Expiry::Deferred ==> m.pcs@.contains(stub_pc) && m.deferred
            < MAX_DEFERRED,
        !m.pcs@.contains(stub_pc) ==> m.expiry(stub_pc) == Expiry::Switch,
{
}

proof fn lemma_digit_no_space(n: nat)
    ensures
        forall|i: int|
            0 <= i < text::digits(n, 16).len() ==> #[trigger] text::digits(n, 16)[i] != ' ',
    decreases n,
{
    if n >= 16 {
        lemma_digit_no_space(n / 16);
    }
    assert forall|i: int| 0 <= i < text::digits(n, 16).len() implies #[trigger] text::digits(
        n,
        16,
    )[i] != ' ' by {
        if n >= 16 {
            let before = text::digits(n / 16, 16);
            if i < before.len() {
                assert(text::digits(n, 16)[i] == before[i]);
            }
        }
    }
}

proof fn lemma_last_space(s: Seq<char>, at: int, from: int)
    requires
        0 <= at <= from <= s.len(),
        words::occurs(s, " "@, at),
        forall|k: int| at < k <= from ==> !(#[trigger] words::occurs(s, " "@, k)),
    ensures
        words::last_upto(s, " "@, from) == Some(at),
    decreases from - at,
{
    if from > at {
        assert(!words::occurs(s, " "@, from));
        lemma_last_space(s, at, from - 1);
    }
}

/// A line of a mask names the program and the address it was written for,
/// whatever the program is called.
pub proof fn a_mask_line_reads_back(name: Seq<char>, pc: u64, program: Seq<char>)
    ensures
        pc_in(name + seq![' '] + text::digits(pc as nat, 16), program) == (if name == program {
            Some(pc)
        } else {
            None
        }),
{
    let d = text::digits(pc as nat, 16);
    let s = name + seq![' '] + d;
    reveal_strlit(" ");
    assert(" "@ =~= seq![' ']);
    let n = name.len() as int;
    lemma_digit_no_space(pc as nat);
    assert(s.subrange(n, n + 1) =~= " "@);
    assert forall|k: int| n < k <= s.len() implies !(#[trigger] words::occurs(s, " "@, k)) by {
        if words::occurs(s, " "@, k) {
            assert(s.subrange(k, k + 1)[0] == ' ');
            assert(s[k] == d[k - n - 1]);
        }
    }
    lemma_last_space(s, n, s.len() as int);
    assert(s.take(n) =~= name);
    assert(s.skip(n + 1) =~= d);
    text::digits_read_back(pc as nat, 16);
    assert(d[0] != '+');
}

} // verus!
