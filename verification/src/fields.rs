//! Named values in the order of their names, each name once: the fields of
//! a report.

use vstd::prelude::*;
use crate::text::same_text;
use crate::words;
use crate::words::comes_before;

verus! {

pub type Entries = Seq<(Seq<char>, Seq<char>)>;

/// Names and values
pub open spec fn pairs(v: Seq<(String, String)>) -> Entries {
    v.map_values(|p: (String, String)| (p.0@, p.1@))
}

/// With a value for a name, in its place
pub open spec fn put(e: Entries, name: Seq<char>, value: Seq<char>) -> Entries
    decreases e.len(),
{
    if e.len() == 0 {
        seq![(name, value)]
    } else if e[0].0 == name {
        seq![(name, value)] + e.skip(1)
    } else if words::precedes(name, e[0].0) {
        seq![(name, value)] + e
    } else {
        seq![e[0]] + put(e.skip(1), name, value)
    }
}

/// The value of a name
pub open spec fn find(e: Entries, name: Seq<char>) -> Option<Seq<char>>
    decreases e.len(),
{
    if e.len() == 0 {
        None
    } else if e[0].0 == name {
        Some(e[0].1)
    } else {
        find(e.skip(1), name)
    }
}

/// Names come in order, each once.
pub open spec fn in_order(e: Entries) -> bool {
    forall|i: int, j: int|
        0 <= i < j < e.len() ==> words::precedes((#[trigger] e[i]).0, (#[trigger] e[j]).0)
}

/// Give a name a value.
pub fn set(v: &mut Vec<(String, String)>, name: String, value: String)
    ensures
        pairs(final(v)@) == put(pairs(old(v)@), name@, value@),
{
    let ghost e = pairs(v@);
    let n: usize = v.len();
    let mut i: usize = 0;
    assert(e.skip(0) =~= e);
    assert(e.take(0) + put(e, name@, value@) =~= put(e, name@, value@));
    while i < n
        invariant
            i <= n == v@.len(),
            e == pairs(v@),
            v@ == old(v)@,
            put(e, name@, value@) == e.take(i as int) + put(e.skip(i as int), name@, value@),
        decreases n - i,
    {
        let same: bool = same_text(v[i].0.as_str(), name.as_str());
        let here: bool = comes_before(name.as_str(), v[i].0.as_str());
        let ghost rest = e.skip(i as int);
        assert(rest.skip(1) =~= e.skip(i + 1));
        if same {
            let ghost new = (name, value);
            v.set(i, (name, value));
            assert(pairs(v@) =~= e.take(i as int) + (seq![(new.0@, new.1@)] + e.skip(i + 1)));
            return;
        }
        if here {
            let ghost new = (name, value);
            v.insert(i, (name, value));
            assert(pairs(v@) =~= e.take(i as int) + (seq![(new.0@, new.1@)] + rest));
            return;
        }
        assert(e.take(i as int) + (seq![rest[0]] + put(e.skip(i + 1), name@, value@))
            =~= e.take(i + 1) + put(e.skip(i + 1), name@, value@));
        i += 1;
    }
    let ghost new = (name, value);
    v.push((name, value));
    assert(pairs(v@) =~= e.take(n as int) + seq![(new.0@, new.1@)]);
}

/// The value of a name
pub fn get<'a>(v: &'a Vec<(String, String)>, name: &str) -> (r: Option<&'a String>)
    ensures
        match r {
            Some(s) => find(pairs(v@), name@) == Some(s@),
            None => find(pairs(v@), name@) is None,
        },
{
    let ghost e = pairs(v@);
    let mut i: usize = 0;
    assert(e.skip(0) =~= e);
    while i < v.len()
        invariant
            i <= v@.len(),
            e == pairs(v@),
            find(e, name@) == find(e.skip(i as int), name@),
        decreases v@.len() - i,
    {
        assert(e.skip(i as int).skip(1) =~= e.skip(i + 1));
        if same_text(v[i].0.as_str(), name) {
            return Some(&v[i].1);
        }
        i += 1;
    }
    None
}

/// A name has the value it was last given, and every other name keeps its
/// own.
pub proof fn a_value_is_found_again(
    e: Entries,
    name: Seq<char>,
    value: Seq<char>,
    other: Seq<char>,
)
    ensures
        find(put(e, name, value), name) == Some(value),
        other != name ==> find(put(e, name, value), other) == find(e, other),
    decreases e.len(),
{
    reveal_with_fuel(find, 2);
    if e.len() == 0 {
        assert(seq![(name, value)].skip(1) =~= e);
    } else {
        let p = put(e, name, value);
        if e[0].0 == name {
            assert(p.skip(1) =~= e.skip(1));
        } else if words::precedes(name, e[0].0) {
            assert(p.skip(1) =~= e);
        } else {
            a_value_is_found_again(e.skip(1), name, value, other);
            assert(p.skip(1) =~= put(e.skip(1), name, value));
        }
    }
}

/// Giving a value keeps the names in order.
pub proof fn names_stay_in_order(e: Entries, name: Seq<char>, value: Seq<char>)
    requires
        in_order(e),
    ensures
        in_order(put(e, name, value)),
    decreases e.len(),
{
    if e.len() > 0 {
        let p = put(e, name, value);
        words::texts_are_in_order(name, e[0].0);
        if e[0].0 == name {
            assert forall|i: int, j: int| 0 <= i < j < p.len() implies words::precedes(
                (#[trigger] p[i]).0,
                (#[trigger] p[j]).0,
            ) by {
                assert(p[i].0 == e[i].0 && p[j].0 == e[j].0);
            }
        } else if words::precedes(name, e[0].0) {
            assert forall|i: int, j: int| 0 <= i < j < p.len() implies words::precedes(
                (#[trigger] p[i]).0,
                (#[trigger] p[j]).0,
            ) by {
                assert(p[j] == e[j - 1]);
                if i > 0 {
                    assert(p[i] == e[i - 1]);
                } else if j > 1 {
                    assert(words::precedes(e[0].0, e[j - 1].0));
                    words::lemma_precedes_on(name, e[0].0, e[j - 1].0);
                }
            }
        } else {
            let r = e.skip(1);
            assert forall|i: int, j: int| 0 <= i < j < r.len() implies words::precedes(
                (#[trigger] r[i]).0,
                (#[trigger] r[j]).0,
            ) by {
                assert(r[i] == e[i + 1] && r[j] == e[j + 1]);
            }
            names_stay_in_order(r, name, value);
            lemma_put_names(r, name, value);
            let q = put(r, name, value);
            assert forall|i: int, j: int| 0 <= i < j < p.len() implies words::precedes(
                (#[trigger] p[i]).0,
                (#[trigger] p[j]).0,
            ) by {
                assert(p[j] == q[j - 1]);
                if i > 0 {
                    assert(p[i] == q[i - 1]);
                } else if q[j - 1].0 != name {
                    let k = choose|k: int| 0 <= k < r.len() && (#[trigger] r[k]).0 == q[j - 1].0;
                    assert(r[k] == e[k + 1]);
                }
            }
        }
    }
}

proof fn lemma_put_names(e: Entries, name: Seq<char>, value: Seq<char>)
    ensures
        forall|i: int|
            0 <= i < put(e, name, value).len() ==> (#[trigger] put(e, name, value)[i]).0 == name
                || exists|k: int|
                0 <= k < e.len() && (#[trigger] e[k]).0 == put(e, name, value)[i].0,
    decreases e.len(),
{
    let p = put(e, name, value);
    if e.len() > 0 && e[0].0 != name && !words::precedes(name, e[0].0) {
        let r = e.skip(1);
        lemma_put_names(r, name, value);
        assert forall|i: int| 0 <= i < p.len() implies (#[trigger] p[i]).0 == name || exists|k: int|
            0 <= k < e.len() && (#[trigger] e[k]).0 == p[i].0 by {
            if i > 0 {
                assert(p[i] == put(r, name, value)[i - 1]);
                if p[i].0 != name {
                    let k = choose|k: int| 0 <= k < r.len() && (#[trigger] r[k]).0 == p[i].0;
                    assert(e[k + 1] == r[k]);
                }
            } else {
                assert(e[0].0 == p[0].0);
            }
        }
    } else if e.len() > 0 {
        assert forall|i: int| 0 <= i < p.len() implies (#[trigger] p[i]).0 == name || exists|k: int|
            0 <= k < e.len() && (#[trigger] e[k]).0 == p[i].0 by {
            if i > 0 {
                if e[0].0 == name {
                    assert(p[i] == e[i]);
                } else {
                    assert(p[i] == e[i - 1]);
                }
            }
        }
    }
}

} // verus!
