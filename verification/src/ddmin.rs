//! Zeller's `ddmin`: a subset that still fails and from which no single
//! element can be removed.
//!
//! A `Ddmin` says which sets to try next and takes what came of it; trying
//! them, which takes a run each, is the caller's part.

use vstd::prelude::*;

verus! {

/// A load or store of a program: (index of the program, yield pc)
pub type Key = (u64, u64);

/// What is tried now
#[derive(Debug, Clone, Copy, PartialEq, Eq, Structural)]
pub enum Stage {
    Parts,
    Complements,
    Done,
}

pub struct Ddmin {
    pub current: Vec<Key>,
    /// How many parts the current set is cut in
    pub n: usize,
    pub stage: Stage,
}

#[verifier::ext_equal]
pub struct DdminView {
    pub current: Seq<Key>,
    pub n: int,
    pub stage: Stage,
}

impl View for Ddmin {
    type V = DdminView;

    open spec fn view(&self) -> DdminView {
        DdminView { current: self.current@, n: self.n as int, stage: self.stage }
    }
}

/// A set cut into pieces of `size`, the last one of what is left
pub open spec fn chunks(s: Seq<Key>, size: int) -> Seq<Seq<Key>>
    decreases s.len(),
{
    if s.len() == 0 || size <= 0 {
        Seq::empty()
    } else if s.len() <= size {
        seq![s]
    } else {
        seq![s.take(size)] + chunks(s.skip(size), size)
    }
}

/// Pieces behind each other
pub open spec fn flat(parts: Seq<Seq<Key>>) -> Seq<Key>
    decreases parts.len(),
{
    if parts.len() == 0 {
        Seq::empty()
    } else {
        flat(parts.drop_last()) + parts.last()
    }
}

/// All pieces but one
pub open spec fn without(parts: Seq<Seq<Key>>, skip: int) -> Seq<Key> {
    flat(parts.take(skip) + parts.skip(skip + 1))
}

/// The first that fails, from number `i` on
pub open spec fn first_failing(results: Seq<bool>, i: int) -> Option<int>
    decreases results.len() - i,
{
    if i < 0 || i >= results.len() {
        None
    } else if results[i] {
        Some(i)
    } else {
        first_failing(results, i + 1)
    }
}

/// How many of `b` make `a`, rounded up
pub open spec fn round_up(a: int, b: int) -> int {
    (a - 1) / b + 1
}

impl DdminView {
    pub open spec fn start(all: Seq<Key>) -> DdminView {
        (DdminView { current: all, n: 2, stage: Stage::Parts }).settled()
    }

    /// A set of fewer than two has nothing to drop.
    pub open spec fn settled(self) -> DdminView {
        if self.current.len() < 2 {
            DdminView { stage: Stage::Done, ..self }
        } else {
            self
        }
    }

    pub open spec fn wf(self) -> bool {
        self.stage != Stage::Done ==> self.current.len() >= 2 && 2 <= self.n
    }

    pub open spec fn parts(self) -> Seq<Seq<Key>> {
        chunks(self.current, round_up(self.current.len() as int, self.n))
    }

    /// The sets to try
    pub open spec fn tests(self) -> Seq<Seq<Key>> {
        match self.stage {
            Stage::Parts => self.parts(),
            Stage::Complements => Seq::new(
                self.parts().len(),
                |i: int| without(self.parts(), i),
            ),
            Stage::Done => Seq::empty(),
        }
    }

    /// None of the sets fails: smaller pieces, if there are any
    pub open spec fn refined(self) -> DdminView {
        if self.n >= self.current.len() {
            DdminView { stage: Stage::Done, ..self }
        } else {
            DdminView {
                n: if 2 * self.n < self.current.len() {
                    2 * self.n
                } else {
                    self.current.len() as int
                },
                stage: Stage::Parts,
                ..self
            }
        }
    }

    /// With what came of the sets
    pub open spec fn tried(self, results: Seq<bool>) -> DdminView {
        match first_failing(results, 0) {
            Some(i) => (DdminView {
                current: self.tests()[i],
                n: if self.stage == Stage::Parts || self.n <= 3 {
                    2
                } else {
                    self.n - 1
                },
                stage: Stage::Parts,
            }).settled(),
            None => if self.stage == Stage::Parts && self.parts().len() > 2 {
                DdminView { stage: Stage::Complements, ..self }
            } else {
                self.refined()
            },
        }
    }
}

/// Pieces of one element
proof fn lemma_singles(s: Seq<Key>)
    ensures
        chunks(s, 1).len() == s.len(),
        forall|i: int| 0 <= i < s.len() ==> #[trigger] chunks(s, 1)[i] == seq![s[i]],
    decreases s.len(),
{
    if s.len() == 1 {
        assert(s =~= seq![s[0]]);
    } else if s.len() > 1 {
        lemma_singles(s.skip(1));
        assert(s.take(1) =~= seq![s[0]]);
        assert forall|i: int| 0 <= i < s.len() implies #[trigger] chunks(s, 1)[i] == seq![s[i]] by {
            if i > 0 {
                assert(chunks(s, 1)[i] == chunks(s.skip(1), 1)[i - 1]);
                assert(s.skip(1)[i - 1] == s[i]);
            }
        }
    }
}

proof fn lemma_flat_singles(s: Seq<Key>, parts: Seq<Seq<Key>>)
    requires
        parts.len() == s.len(),
        forall|i: int| 0 <= i < s.len() ==> #[trigger] parts[i] == seq![s[i]],
    ensures
        flat(parts) == s,
    decreases s.len(),
{
    if s.len() > 0 {
        let p = parts.drop_last();
        let t = s.drop_last();
        assert forall|i: int| 0 <= i < t.len() implies #[trigger] p[i] == seq![t[i]] by {
            assert(p[i] == parts[i]);
        }
        lemma_flat_singles(t, p);
        assert(parts.last() == parts[parts.len() - 1]);
        assert(t + seq![s.last()] =~= s);
    } else {
        assert(flat(parts) =~= s);
    }
}

/// All but one of the pieces of one element
proof fn lemma_without_single(s: Seq<Key>, k: int)
    requires
        0 <= k < s.len(),
    ensures
        without(chunks(s, 1), k) == s.remove(k),
{
    lemma_singles(s);
    let parts = chunks(s, 1);
    let rest = parts.take(k) + parts.skip(k + 1);
    let t = s.remove(k);
    assert forall|i: int| 0 <= i < t.len() implies #[trigger] rest[i] == seq![t[i]] by {
        if i < k {
            assert(rest[i] == parts[i]);
        } else {
            assert(rest[i] == parts[i + 1]);
        }
    }
    lemma_flat_singles(t, rest);
}

proof fn lemma_first_failing(results: Seq<bool>, i: int)
    requires
        0 <= i,
    ensures
        match first_failing(results, i) {
            Some(k) => i <= k < results.len() && results[k],
            None => forall|k: int| i <= k < results.len() ==> !(#[trigger] results[k]),
        },
    decreases results.len() - i,
{
    if i < results.len() && !results[i] {
        lemma_first_failing(results, i + 1);
    }
}

/// When the search comes to its end with a set of two or more, dropping any
/// single element was tried and did not fail.
pub proof fn nothing_more_can_be_dropped(
    d: DdminView,
    results: Seq<bool>,
    fails: spec_fn(Seq<Key>) -> bool,
    k: int,
)
    requires
        d.wf(),
        d.stage != Stage::Done,
        results.len() == d.tests().len(),
        forall|i: int| 0 <= i < results.len() ==> #[trigger] results[i] == fails(d.tests()[i]),
        d.tried(results).stage == Stage::Done,
        d.tried(results).current.len() >= 2,
        0 <= k < d.tried(results).current.len(),
    ensures
        d.tried(results).current == d.current,
        !fails(d.current.remove(k)),
{
    lemma_first_failing(results, 0);
    let s = d.current;
    assert(first_failing(results, 0) is None);
    assert(d.n >= s.len());
    assert((s.len() - 1) / d.n == 0) by (nonlinear_arith)
        requires
            d.n >= s.len() >= 2,
    ;
    lemma_singles(s);
    lemma_without_single(s, k);
    if d.stage == Stage::Complements {
        assert(d.tests()[k] == without(d.parts(), k));
        assert(!results[k]);
    } else {
        assert(s.len() == 2);
        let other = 1 - k;
        assert(d.tests()[other] == seq![s[other]]);
        assert(s.remove(k) =~= seq![s[other]]);
        assert(!results[other]);
    }
}

/// What is left still fails, as long as what was tried did.
pub proof fn what_is_left_still_fails(
    d: DdminView,
    results: Seq<bool>,
    fails: spec_fn(Seq<Key>) -> bool,
)
    requires
        fails(d.current),
        results.len() == d.tests().len(),
        forall|i: int| 0 <= i < results.len() ==> #[trigger] results[i] == fails(d.tests()[i]),
    ensures
        fails(d.tried(results).current),
{
    lemma_first_failing(results, 0);
}

/// Whether `places` goes up and picks `a` out of `b`
pub open spec fn picks(a: Seq<Key>, b: Seq<Key>, places: Seq<int>) -> bool {
    &&& places.len() == a.len()
    &&& forall|k: int|
        0 <= k < a.len() ==> 0 <= (#[trigger] places[k]) < b.len() && a[k] == b[places[k]]
    &&& forall|j: int, k: int|
        0 <= j < k < a.len() ==> (#[trigger] places[j]) < (#[trigger] places[k])
}

/// Whether `a` is what is left of `b` when some are dropped
pub open spec fn left_of(a: Seq<Key>, b: Seq<Key>) -> bool {
    exists|places: Seq<int>| picks(a, b, places)
}

proof fn lemma_left_of_left(a: Seq<Key>, b: Seq<Key>, c: Seq<Key>)
    requires
        left_of(a, b),
        left_of(b, c),
    ensures
        left_of(a, c),
{
    let x = choose|x: Seq<int>| picks(a, b, x);
    let y = choose|y: Seq<int>| picks(b, c, y);
    let z = Seq::new(a.len(), |k: int| y[x[k]]);
    assert(picks(a, c, z)) by {
        assert forall|k: int| 0 <= k < a.len() implies 0 <= (#[trigger] z[k]) < c.len() && a[k]
            == c[z[k]] by {
            assert(0 <= x[k] < b.len());
        }
        assert forall|j: int, k: int| 0 <= j < k < a.len() implies (#[trigger] z[j])
            < (#[trigger] z[k]) by {
            assert(x[j] < x[k]);
            assert(0 <= x[j] && x[k] < b.len());
        }
    }
}

proof fn lemma_cut_left(s: Seq<Key>, from: int, to: int)
    requires
        0 <= from <= to <= s.len(),
    ensures
        left_of(s.subrange(from, to), s),
        left_of(s.take(from) + s.skip(to), s),
{
    let inner = Seq::new((to - from) as nat, |k: int| from + k);
    assert(picks(s.subrange(from, to), s, inner));
    let outer = Seq::new(
        (s.len() - (to - from)) as nat,
        |k: int|
            if k < from {
                k
            } else {
                k + (to - from)
            },
    );
    assert(picks(s.take(from) + s.skip(to), s, outer));
}

proof fn lemma_flat_first(x: Seq<Key>, parts: Seq<Seq<Key>>)
    ensures
        flat(seq![x] + parts) == x + flat(parts),
    decreases parts.len(),
{
    let all = seq![x] + parts;
    if parts.len() == 0 {
        assert(all =~= seq![x]);
        assert(all.drop_last() =~= parts);
        assert(flat(parts) =~= Seq::empty());
        assert(flat(all) =~= x);
        assert(x + flat(parts) =~= x);
    } else {
        lemma_flat_first(x, parts.drop_last());
        assert(all.drop_last() =~= seq![x] + parts.drop_last());
        assert(flat(all) =~= x + flat(parts));
    }
}

proof fn lemma_flat_chunks(s: Seq<Key>, size: int)
    requires
        size > 0,
    ensures
        flat(chunks(s, size)) == s,
    decreases s.len(),
{
    if s.len() == 0 {
        assert(flat(chunks(s, size)) =~= s);
    } else if s.len() <= size {
        lemma_flat_first(s, Seq::empty());
        assert(seq![s] + Seq::<Seq<Key>>::empty() =~= seq![s]);
        assert(flat(chunks(s, size)) =~= s);
    } else {
        lemma_flat_chunks(s.skip(size), size);
        lemma_flat_first(s.take(size), chunks(s.skip(size), size));
        assert(s.take(size) + s.skip(size) =~= s);
    }
}

/// A piece is cut out of the set, and all pieces but it are the set without
/// it.
proof fn lemma_piece(s: Seq<Key>, size: int, i: int) -> (r: (int, int))
    requires
        size > 0,
        0 <= i < chunks(s, size).len(),
    ensures
        0 <= r.0 <= r.1 <= s.len(),
        chunks(s, size)[i] == s.subrange(r.0, r.1),
        without(chunks(s, size), i) == s.take(r.0) + s.skip(r.1),
    decreases s.len(),
{
    let c = chunks(s, size);
    if s.len() <= size {
        assert(c.take(0) + c.skip(1) =~= Seq::empty());
        assert(s.subrange(0, s.len() as int) =~= s);
        assert(s.take(0) + s.skip(s.len() as int) =~= Seq::empty());
        (0, s.len() as int)
    } else {
        let rest = s.skip(size);
        let more = chunks(rest, size);
        if i == 0 {
            lemma_flat_chunks(rest, size);
            assert(c.take(0) + c.skip(1) =~= more);
            assert(s.subrange(0, size) =~= s.take(size));
            assert(s.take(0) + s.skip(size) =~= rest);
            (0, size)
        } else {
            let (a, b) = lemma_piece(rest, size, i - 1);
            let others = more.take(i - 1) + more.skip(i);
            assert(c.take(i) + c.skip(i + 1) =~= seq![s.take(size)] + others);
            lemma_flat_first(s.take(size), others);
            assert(rest.subrange(a, b) =~= s.subrange(size + a, size + b));
            assert(s.take(size) + (rest.take(a) + rest.skip(b)) =~= s.take(size + a) + s.skip(
                size + b,
            ));
            (size + a, size + b)
        }
    }
}

/// Only dropping happens: what is left after a round is what was there with
/// some elements gone, in the same order. So it is of any set that the one
/// before was left of, the whole at the start among them.
pub proof fn what_is_left_was_there(d: DdminView, results: Seq<bool>, all: Seq<Key>)
    requires
        d.wf(),
        d.stage != Stage::Done,
        results.len() == d.tests().len(),
        left_of(d.current, all),
    ensures
        left_of(d.tried(results).current, d.current),
        left_of(d.tried(results).current, all),
        left_of(all, DdminView::start(all).current),
{
    lemma_first_failing(results, 0);
    lemma_cut_left(all, 0, all.len() as int);
    assert(all.subrange(0, all.len() as int) =~= all);
    let s = d.current;
    lemma_cut_left(s, 0, s.len() as int);
    assert(s.subrange(0, s.len() as int) =~= s);
    let size = round_up(s.len() as int, d.n);
    assert(size > 0) by (nonlinear_arith)
        requires
            size == (s.len() - 1) / d.n + 1,
            s.len() >= 2,
            d.n >= 2,
    ;
    if let Some(i) = first_failing(results, 0) {
        let (a, b) = lemma_piece(s, size, i);
        lemma_cut_left(s, a, b);
    }
    lemma_left_of_left(d.tried(results).current, s, all);
}

fn cut(v: &Vec<Key>, from: usize, to: usize) -> (r: Vec<Key>)
    requires
        from <= to <= v@.len(),
    ensures
        r@ == v@.subrange(from as int, to as int),
{
    vstd::slice::slice_to_vec(vstd::slice::slice_subrange(v.as_slice(), from, to))
}

/// The sets of keys
pub open spec fn sets(v: Seq<Vec<Key>>) -> Seq<Seq<Key>> {
    v.map_values(|s: Vec<Key>| s@)
}

fn in_pieces(v: &Vec<Key>, size: usize) -> (r: Vec<Vec<Key>>)
    requires
        size >= 1,
    ensures
        sets(r@) == chunks(v@, size as int),
{
    let mut out: Vec<Vec<Key>> = Vec::new();
    let mut at: usize = 0;
    let n: usize = v.len();
    assert(v@.skip(0) =~= v@);
    assert(sets(out@) + chunks(v@, size as int) =~= chunks(v@, size as int));
    while at < n
        invariant
            size >= 1,
            n == v@.len(),
            at <= n,
            sets(out@) + chunks(v@.skip(at as int), size as int) == chunks(v@, size as int),
        decreases n - at,
    {
        let ghost rest = v@.skip(at as int);
        let end: usize = if n - at <= size {
            n
        } else {
            at + size
        };
        let ghost was = sets(out@);
        let piece = cut(v, at, end);
        out.push(piece);
        proof {
            assert(sets(out@) =~= was.push(piece@));
            assert(rest.skip(end - at) =~= v@.skip(end as int));
            if rest.len() <= size {
                assert(piece@ =~= rest);
                assert(chunks(v@.skip(end as int), size as int) =~= Seq::<Seq<Key>>::empty());
                assert(was + seq![rest] =~= was.push(piece@) + Seq::<Seq<Key>>::empty());
            } else {
                assert(piece@ =~= rest.take(size as int));
                assert(was + (seq![piece@] + chunks(rest.skip(size as int), size as int))
                    =~= was.push(piece@) + chunks(v@.skip(end as int), size as int));
            }
        }
        at = end;
    }
    assert(sets(out@) + chunks(v@.skip(at as int), size as int) =~= sets(out@));
    out
}

fn push_all(out: &mut Vec<Key>, more: &Vec<Key>)
    ensures
        final(out)@ == old(out)@ + more@,
{
    let ghost was = out@;
    let mut i: usize = 0;
    while i < more.len()
        invariant
            i <= more@.len(),
            out@ == was + more@.take(i as int),
        decreases more@.len() - i,
    {
        out.push(more[i]);
        assert(out@ =~= was + more@.take(i + 1));
        i += 1;
    }
    assert(more@.take(i as int) =~= more@);
}

fn all_but(parts: &Vec<Vec<Key>>, skip: usize) -> (r: Vec<Key>)
    requires
        skip < parts@.len(),
    ensures
        r@ == without(sets(parts@), skip as int),
{
    let ghost p = sets(parts@);
    let ghost kept = p.take(skip as int) + p.skip(skip + 1);
    let mut out: Vec<Key> = Vec::new();
    let mut i: usize = 0;
    assert(kept.take(0) =~= Seq::<Seq<Key>>::empty());
    assert(out@ =~= Seq::<Key>::empty());
    while i < parts.len()
        invariant
            i <= parts@.len(),
            skip < parts@.len(),
            p == sets(parts@),
            kept == p.take(skip as int) + p.skip(skip + 1),
            out@ == flat(
                kept.take(
                    if i <= skip {
                        i as int
                    } else {
                        i - 1
                    },
                ),
            ),
        decreases parts@.len() - i,
    {
        if i != skip {
            push_all(&mut out, &parts[i]);
            proof {
                let k = if i < skip {
                    i as int
                } else {
                    i - 1
                };
                assert(kept.take(k + 1).drop_last() =~= kept.take(k));
                assert(kept[k] == p[i as int]);
            }
        }
        i += 1;
    }
    assert(kept.take(i - 1) =~= kept);
    out
}

impl Ddmin {
    pub fn new(all: Vec<Key>) -> (r: Ddmin)
        ensures
            r@.wf(),
            r@ == DdminView::start(all@),
    {
        let stage: Stage = if all.len() < 2 {
            Stage::Done
        } else {
            Stage::Parts
        };
        Ddmin { current: all, n: 2, stage }
    }

    fn pieces(&self) -> (r: Vec<Vec<Key>>)
        requires
            self@.wf(),
            self.stage != Stage::Done,
        ensures
            sets(r@) == self@.parts(),
    {
        let len: usize = self.current.len();
        let size: usize = (len - 1) / self.n + 1;
        in_pieces(&self.current, size)
    }

    /// The sets to try next; none when the search is done
    pub fn tests(&self) -> (r: Vec<Vec<Key>>)
        requires
            self@.wf(),
        ensures
            sets(r@) == self@.tests(),
    {
        match self.stage {
            Stage::Parts => self.pieces(),
            Stage::Complements => {
                let parts = self.pieces();
                let mut out: Vec<Vec<Key>> = Vec::new();
                let mut i: usize = 0;
                while i < parts.len()
                    invariant
                        i <= parts@.len(),
                        sets(parts@) == self@.parts(),
                        out@.len() == i,
                        forall|k: int|
                            0 <= k < i ==> (#[trigger] out@[k])@ == without(self@.parts(), k),
                    decreases parts@.len() - i,
                {
                    out.push(all_but(&parts, i));
                    i += 1;
                }
                assert(sets(out@) =~= self@.tests());
                out
            },
            Stage::Done => {
                let none: Vec<Vec<Key>> = Vec::new();
                assert(sets(none@) =~= Seq::<Seq<Key>>::empty());
                none
            },
        }
    }

    /// Go on with what came of the sets: whether each failed. Returns
    /// whether the set got smaller.
    pub fn take(&mut self, results: &Vec<bool>) -> (r: bool)
        requires
            old(self)@.wf(),
            old(self).stage != Stage::Done,
            results@.len() == old(self)@.tests().len(),
        ensures
            final(self)@.wf(),
            final(self)@ == old(self)@.tried(results@),
            r == (first_failing(results@, 0) is Some),
    {
        let mut tests = self.tests();
        let mut i: usize = 0;
        while i < results.len() && !results[i]
            invariant
                i <= results@.len(),
                first_failing(results@, 0) == first_failing(results@, i as int),
            decreases results@.len() - i,
        {
            i += 1;
        }
        if i < results.len() {
            let next = tests.swap_remove(i);
            assert(next@ == self@.tests()[i as int]);
            self.n = match self.stage {
                Stage::Parts => 2,
                _ => if self.n <= 3 {
                    2
                } else {
                    self.n - 1
                },
            };
            self.stage = if next.len() < 2 {
                Stage::Done
            } else {
                Stage::Parts
            };
            self.current = next;
            return true;
        }
        let parts: bool = match self.stage {
            Stage::Parts => true,
            _ => false,
        };
        if parts && tests.len() > 2 {
            self.stage = Stage::Complements;
            return false;
        }
        let len: usize = self.current.len();
        if self.n >= len {
            self.stage = Stage::Done;
        } else {
            self.n = if self.n < len - self.n {
                2 * self.n
            } else {
                len
            };
            self.stage = Stage::Parts;
        }
        false
    }
}

proof fn lemma_chunks_flat(s: Seq<Key>, size: int)
    requires
        size > 0,
    ensures
        flat(chunks(s, size)) == s,
        forall|i: int| 0 <= i < chunks(s, size).len() ==> 0 < (#[trigger] chunks(s, size)[i]).len()
            <= size,
        forall|i: int|
            0 <= i < chunks(s, size).len() - 1 ==> (#[trigger] chunks(s, size)[i]).len() == size,
        size * (chunks(s, size).len() - 1) < s.len() || s.len() == 0,
        s.len() == 0 <==> chunks(s, size).len() == 0,
    decreases s.len(),
{
    reveal_with_fuel(flat, 2);
    let c = chunks(s, size);
    if s.len() == 0 {
        assert(flat(c) =~= s);
    } else if s.len() <= size {
        assert(c.drop_last() =~= Seq::<Seq<Key>>::empty());
        assert(flat(c) =~= s);
        assert(c.len() - 1 == 0);
        assert(size * (c.len() - 1) == 0) by (nonlinear_arith)
            requires
                c.len() - 1 == 0,
        ;
    } else {
        let rest = chunks(s.skip(size), size);
        lemma_chunks_flat(s.skip(size), size);
        lemma_flat_first(s.take(size), rest);
        assert(s.take(size) + s.skip(size) =~= s);
        assert forall|i: int| 0 <= i < c.len() implies 0 < (#[trigger] c[i]).len() <= size && (i
            < c.len() - 1 ==> c[i].len() == size) by {
            if i > 0 {
                assert(c[i] == rest[i - 1]);
            }
        }
        assert(size * (c.len() - 1) == size * (rest.len() - 1) + size) by (nonlinear_arith)
            requires
                c.len() == rest.len() + 1,
        ;
    }
}

/// A set is cut in parts that make it up again, one behind the other: at most as
/// many as asked for, none empty, and all as long as the first but perhaps the
/// last.
pub proof fn the_parts_make_up_the_set(d: DdminView, i: int)
    requires
        d.wf(),
        d.stage != Stage::Done,
    ensures
        flat(d.parts()) == d.current,
        0 < d.parts().len() <= d.n,
        0 <= i < d.parts().len() ==> 0 < d.parts()[i].len() <= d.parts()[0].len(),
        0 <= i < d.parts().len() - 1 ==> d.parts()[i].len() == d.parts()[0].len(),
        d.parts()[0].len() * d.n < d.current.len() + d.n,
{
    let len = d.current.len() as int;
    let size = round_up(len, d.n);
    assert(size > 0 && size * d.n < len + d.n && size * d.n >= len) by (nonlinear_arith)
        requires
            size == (len - 1) / d.n + 1,
            d.n >= 2,
            len >= 2,
    ;
    lemma_chunks_flat(d.current, size);
    let k = d.parts().len() as int;
    assert(k <= d.n) by (nonlinear_arith)
        requires
            size * (k - 1) < len,
            size * d.n >= len,
            size > 0,
    ;
    assert(d.parts()[0].len() <= size);
    if k == 1 {
        assert(d.parts()[0].len() * d.n <= size * d.n) by (nonlinear_arith)
            requires
                d.parts()[0].len() <= size,
                d.n >= 2,
        ;
    }
}

/// What is tried of a stage: the parts themselves, or for each part what the
/// set is without it.
pub proof fn what_is_tried(d: DdminView, i: int)
    requires
        d.wf(),
        d.stage != Stage::Done,
        0 <= i < d.parts().len(),
    ensures
        d.tests().len() == d.parts().len(),
        d.stage == Stage::Parts ==> d.tests()[i] == d.parts()[i],
        d.stage == Stage::Complements ==> d.tests()[i] == flat(d.parts().take(i)) + flat(
            d.parts().skip(i + 1),
        ),
{
    lemma_flat_both(d.parts().take(i), d.parts().skip(i + 1));
}

proof fn lemma_flat_both(a: Seq<Seq<Key>>, b: Seq<Seq<Key>>)
    ensures
        flat(a + b) == flat(a) + flat(b),
    decreases b.len(),
{
    if b.len() == 0 {
        assert(a + b =~= a);
        assert(flat(a) + flat(b) =~= flat(a));
    } else {
        lemma_flat_both(a, b.drop_last());
        assert((a + b).drop_last() =~= a + b.drop_last());
        assert(flat(a + b) =~= flat(a) + flat(b));
    }
}

/// How the search goes on: with the first of the sets that fails; where none
/// does, from the parts to their complements, where those are others, and then
/// to parts half as large. It ends only with single elements or a set that
/// cannot be cut.
pub proof fn how_the_search_goes_on(d: DdminView, results: Seq<bool>, i: int)
    requires
        d.wf(),
        d.stage != Stage::Done,
        results.len() == d.tests().len(),
        0 <= i <= results.len(),
        forall|k: int| 0 <= k < i ==> !#[trigger] results[k],
        i < results.len() ==> results[i],
    ensures
        ({
            let after = d.tried(results);
            &&& i < results.len() ==> after.current == d.tests()[i] && (after.current.len() < 2
                <==> after.stage == Stage::Done) && (after.stage != Stage::Done ==> after.stage
                == Stage::Parts)
            &&& i < results.len() && d.stage == Stage::Parts ==> after.n == 2
            &&& i < results.len() && d.stage == Stage::Complements ==> after.n == (if d.n > 3 {
                d.n - 1
            } else {
                2
            })
            &&& i == results.len() ==> after.current == d.current
            &&& i == results.len() && d.stage == Stage::Parts && d.parts().len() > 2 ==> after.stage
                == Stage::Complements && after.n == d.n
            &&& i == results.len() && (d.stage == Stage::Complements || d.parts().len() <= 2) ==> (
            if d.n >= d.current.len() {
                after.stage == Stage::Done
            } else {
                after.stage == Stage::Parts && d.n < after.n <= d.current.len() && (after.n == 2
                    * d.n || after.n == d.current.len() && 2 * d.n >= d.current.len())
            })
        }),
{
    lemma_first_at(results, 0, i);
}

proof fn lemma_first_at(results: Seq<bool>, from: int, i: int)
    requires
        0 <= from <= i <= results.len(),
        forall|k: int| from <= k < i ==> !#[trigger] results[k],
        i < results.len() ==> results[i],
    ensures
        first_failing(results, from) == (if i < results.len() {
            Some(i)
        } else {
            None
        }),
    decreases i - from,
{
    if from < i {
        assert(!results[from]);
        lemma_first_at(results, from + 1, i);
    }
}

} // verus!
