//! Sorting of numbered values.

use vstd::prelude::*;

verus! {

/// By value, then by number
pub open spec fn ordered(a: (u64, usize), b: (u64, usize)) -> bool {
    a.0 < b.0 || (a.0 == b.0 && a.1 <= b.1)
}

pub open spec fn sorted(s: Seq<(u64, usize)>) -> bool {
    forall|i: int, j: int| 0 <= i <= j < s.len() ==> ordered(#[trigger] s[i], #[trigger] s[j])
}

fn merge(a: Vec<(u64, usize)>, b: Vec<(u64, usize)>) -> (r: Vec<(u64, usize)>)
    requires
        sorted(a@),
        sorted(b@),
        a@.len() + b@.len() <= usize::MAX,
    ensures
        sorted(r@),
        r@.to_multiset() == a@.to_multiset().add(b@.to_multiset()),
{
    let mut out: Vec<(u64, usize)> = Vec::new();
    let mut i: usize = 0;
    let mut j: usize = 0;
    broadcast use vstd::seq_lib::group_to_multiset_ensures;

    proof {
        assert(a@.take(0) =~= Seq::empty());
        assert(b@.take(0) =~= Seq::empty());
        assert(out@.to_multiset() =~= a@.take(0).to_multiset().add(b@.take(0).to_multiset()));
    }
    while i < a.len() || j < b.len()
        invariant
            i <= a.len(),
            j <= b.len(),
            sorted(a@),
            sorted(b@),
            sorted(out@),
            a@.len() + b@.len() <= usize::MAX,
            forall|k: int| 0 <= k < out.len() && i < a.len() ==> ordered(#[trigger] out@[k], a@[i as int]),
            forall|k: int| 0 <= k < out.len() && j < b.len() ==> ordered(#[trigger] out@[k], b@[j as int]),
            out@.to_multiset() == a@.take(i as int).to_multiset().add(
                b@.take(j as int).to_multiset(),
            ),
        decreases a.len() - i + b.len() - j,
    {
        let left = j >= b.len() || (i < a.len() && (a[i].0 < b[j].0 || (a[i].0 == b[j].0 && a[i].1
            <= b[j].1)));
        if left {
            proof {
                assert(a@.take(i + 1) =~= a@.take(i as int).push(a@[i as int]));
                a@.take(i as int).to_multiset_ensures();
                out@.to_multiset_ensures();
            }
            out.push(a[i]);
            i += 1;
            assert(out@.to_multiset() =~= a@.take(i as int).to_multiset().add(
                b@.take(j as int).to_multiset(),
            ));
        } else {
            proof {
                assert(b@.take(j + 1) =~= b@.take(j as int).push(b@[j as int]));
                b@.take(j as int).to_multiset_ensures();
                out@.to_multiset_ensures();
            }
            out.push(b[j]);
            j += 1;
            assert(out@.to_multiset() =~= a@.take(i as int).to_multiset().add(
                b@.take(j as int).to_multiset(),
            ));
        }
    }
    proof {
        assert(a@.take(i as int) =~= a@);
        assert(b@.take(j as int) =~= b@);
    }
    out
}

/// The same pairs in order
pub fn sort(v: Vec<(u64, usize)>) -> (r: Vec<(u64, usize)>)
    ensures
        sorted(r@),
        r@.to_multiset() == v@.to_multiset(),
    decreases v@.len(),
{
    let n: usize = v.len();
    if n <= 1 {
        return v;
    }
    let ghost whole = v@;
    let mut left = v;
    let right = left.split_off(n / 2);
    proof {
        assert(whole =~= left@ + right@);
        vstd::seq_lib::lemma_multiset_commutative(left@, right@);
    }
    let a = sort(left);
    let b = sort(right);
    proof {
        a@.to_multiset_ensures();
        b@.to_multiset_ensures();
        left@.to_multiset_ensures();
        right@.to_multiset_ensures();
    }
    merge(a, b)
}

/// `order` lists each of the numbers below `n` once.
pub open spec fn permutes(order: Seq<int>, n: int) -> bool {
    &&& order.len() == n
    &&& forall|i: int| 0 <= i < n ==> 0 <= #[trigger] order[i] < n
    &&& forall|i: int, j: int| 0 <= i < j < n ==> #[trigger] order[i] != #[trigger] order[j]
}

/// Such a list has every number below `n` in it.
pub proof fn lemma_permutes_onto(order: Seq<int>, n: int, k: int)
    requires
        permutes(order, n),
        0 <= k < n,
    ensures
        order.contains(k),
{
    let all = Set::<int>::range(0, n);
    let got = order.to_set();
    order.unique_seq_to_set();
    vstd::set_lib::lemma_int_range(0, n);
    assert(got.subset_of(all));
    vstd::set_lib::lemma_subset_equality(got, all);
    assert(all.contains(k));
    assert(got.contains(k));
}

/// The places of `keys` in the order of what they hold, those that hold the
/// same in their own order
pub open spec fn sorts(order: Seq<int>, keys: Seq<u64>) -> bool {
    &&& permutes(order, keys.len() as int)
    &&& forall|i: int, j: int|
        0 <= i < j < order.len() ==> keys[#[trigger] order[i]] < keys[#[trigger] order[j]] || (
        keys[order[i]] == keys[order[j]] && order[i] < order[j])
}

pub open spec fn numbers(order: Seq<usize>) -> Seq<int> {
    order.map_values(|k: usize| k as int)
}

pub fn order_of(keys: &Vec<u64>) -> (r: Vec<usize>)
    ensures
        sorts(numbers(r@), keys@),
{
    let mut pairs: Vec<(u64, usize)> = Vec::new();
    let mut i: usize = 0;
    while i < keys.len()
        invariant
            i <= keys.len(),
            pairs.len() == i,
            forall|k: int| 0 <= k < i ==> #[trigger] pairs@[k] == (keys@[k], k as usize),
        decreases keys.len() - i,
    {
        pairs.push((keys[i], i));
        i += 1;
    }
    let ghost given = pairs@;
    let sorted_pairs = sort(pairs);
    let ghost got = sorted_pairs@;
    proof {
        given.to_multiset_ensures();
        got.to_multiset_ensures();
        assert(given.no_duplicates());
        given.lemma_multiset_has_no_duplicates();
        got.lemma_multiset_has_no_duplicates_conv();
        assert forall|k: int| 0 <= k < got.len() implies (#[trigger] got[k]).1 < keys.len()
            && got[k].0 == keys@[got[k].1 as int] by {
            assert(got.to_multiset().contains(got[k]));
            assert(given.contains(got[k]));
        }
        assert forall|a: int, b: int| 0 <= a < b < got.len() implies (#[trigger] got[a]).1 != (
        #[trigger] got[b]).1 by {
            assert(got[a] != got[b]);
        }
    }
    let mut out: Vec<usize> = Vec::new();
    let mut j: usize = 0;
    while j < sorted_pairs.len()
        invariant
            j <= sorted_pairs.len(),
            out.len() == j,
            forall|k: int| 0 <= k < j ==> #[trigger] out@[k] == sorted_pairs@[k].1,
        decreases sorted_pairs.len() - j,
    {
        out.push(sorted_pairs[j].1);
        j += 1;
    }
    proof {
        let order = numbers(out@);
        assert forall|a: int, b: int| 0 <= a < b < order.len() implies keys@[#[trigger] order[a]]
            < keys@[#[trigger] order[b]] || (keys@[order[a]] == keys@[order[b]] && order[a]
            < order[b]) by {
            assert(ordered(got[a], got[b]));
        }
    }
    out
}

} // verus!
