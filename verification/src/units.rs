//! Spans of time and sizes, as people write them.

use vstd::prelude::*;
use crate::text;
use crate::text::{chars_of, parse_unsigned, push_decimal};
use crate::words;
use crate::words::{before_suffix, push_padded, split_once_text};

verus! {

/// A number in units of `scale`
pub open spec fn scaled(digits: Seq<char>, scale: int) -> Option<u64> {
    match text::unsigned_value(digits, 10, u64::MAX as nat) {
        Some(n) => if n * scale <= u64::MAX {
            Some((n * scale) as u64)
        } else {
            None
        },
        None => None,
    }
}

/// A span of time in nanoseconds: a number and `ns`, `us`, `ms` or `s`, or
/// nanoseconds without a unit
pub open spec fn duration(s: Seq<char>) -> Option<u64> {
    match words::before(s, "ns"@) {
        Some(d) => scaled(d, 1),
        None => match words::before(s, "us"@) {
            Some(d) => scaled(d, 1_000),
            None => match words::before(s, "ms"@) {
                Some(d) => scaled(d, 1_000_000),
                None => match words::before(s, "s"@) {
                    Some(d) => scaled(d, 1_000_000_000),
                    None => scaled(s, 1),
                },
            },
        },
    }
}

/// A size in bytes: a number and `K`, `M`, `G` or `T`, or bytes without a
/// unit
pub open spec fn size(s: Seq<char>) -> Option<u64> {
    match words::before(s, "K"@) {
        Some(d) => scaled(d, 0x400),
        None => match words::before(s, "M"@) {
            Some(d) => scaled(d, 0x10_0000),
            None => match words::before(s, "G"@) {
                Some(d) => scaled(d, 0x4000_0000),
                None => match words::before(s, "T"@) {
                    Some(d) => scaled(d, 0x100_0000_0000),
                    None => scaled(s, 1),
                },
            },
        },
    }
}

/// Two spans of time, the first no longer than the second: `LO..HI`, or one
/// span for both
pub open spec fn span(s: Seq<char>) -> Option<(u64, u64)> {
    match words::split_at_text(s, ".."@) {
        Some((a, b)) => match (duration(a), duration(b)) {
            (Some(lo), Some(hi)) => if lo <= hi {
                Some((lo, hi))
            } else {
                None
            },
            _ => None,
        },
        None => match duration(s) {
            Some(t) => Some((t, t)),
            None => None,
        },
    }
}

fn in_units(digits: &Vec<char>, scale: u64) -> (r: Option<u64>)
    ensures
        r == scaled(digits@, scale as int),
{
    match parse_unsigned(digits, 10, u64::MAX) {
        Some(n) => n.checked_mul(scale),
        None => None,
    }
}

fn duration_of(chars: &Vec<char>) -> (r: Option<u64>)
    ensures
        r == duration(chars@),
{
    match before_suffix(chars, "ns") {
        Some(d) => in_units(&d, 1),
        None => match before_suffix(chars, "us") {
            Some(d) => in_units(&d, 1_000),
            None => match before_suffix(chars, "ms") {
                Some(d) => in_units(&d, 1_000_000),
                None => match before_suffix(chars, "s") {
                    Some(d) => in_units(&d, 1_000_000_000),
                    None => in_units(chars, 1),
                },
            },
        },
    }
}

pub fn parse_duration_ns(v: &str) -> (r: Option<u64>)
    ensures
        r == duration(v@),
{
    duration_of(&chars_of(v))
}

pub fn parse_size(v: &str) -> (r: Option<u64>)
    ensures
        r == size(v@),
{
    let chars = chars_of(v);
    match before_suffix(&chars, "K") {
        Some(d) => in_units(&d, 0x400),
        None => match before_suffix(&chars, "M") {
            Some(d) => in_units(&d, 0x10_0000),
            None => match before_suffix(&chars, "G") {
                Some(d) => in_units(&d, 0x4000_0000),
                None => match before_suffix(&chars, "T") {
                    Some(d) => in_units(&d, 0x100_0000_0000),
                    None => in_units(&chars, 1),
                },
            },
        },
    }
}

pub fn parse_span(v: &str) -> (r: Option<(u64, u64)>)
    ensures
        r == span(v@),
{
    let chars = chars_of(v);
    match split_once_text(&chars, "..") {
        Some((a, b)) => match (duration_of(&a), duration_of(&b)) {
            (Some(lo), Some(hi)) => if lo <= hi {
                Some((lo, hi))
            } else {
                None
            },
            _ => None,
        },
        None => match duration_of(&chars) {
            Some(t) => Some((t, t)),
            None => None,
        },
    }
}

/// Virtual nanoseconds as milliseconds, for people
pub open spec fn milliseconds(ns: u64) -> Seq<char> {
    text::decimal((ns / 1_000_000) as nat) + "."@ + words::padded((ns / 1000 % 1000) as nat, 10, 3)
        + " ms"@
}

/// Virtual nanoseconds as milliseconds, for people
pub fn ms(ns: u64) -> (r: String)
    ensures
        r@ == milliseconds(ns),
{
    let mut out = String::new();
    push_decimal(&mut out, ns / 1_000_000);
    out.append(".");
    push_padded(&mut out, ns / 1000 % 1000, 10, 3);
    out.append(" ms");
    assert(out@ =~= milliseconds(ns));
    out
}

proof fn lemma_decimal(n: nat)
    ensures
        text::decimal(n).len() > 0,
        forall|i: int| 0 <= i < text::decimal(n).len() ==> '0' <= #[trigger] text::decimal(n)[i]
            <= '9',
    decreases n,
{
    if n >= 10 {
        lemma_decimal(n / 10);
        let d = text::decimal(n);
        let before = text::decimal(n / 10);
        assert(d == before.push(text::digit(n % 10)));
        assert forall|i: int| 0 <= i < d.len() implies '0' <= #[trigger] d[i] <= '9' by {
            if i < before.len() {
                assert(d[i] == before[i]);
            }
        }
    }
}

proof fn lemma_number(n: nat, unit: Seq<char>)
    ensures
        ({
            let d = text::decimal(n);
            &&& d.len() > 0
            &&& words::before(d + unit, unit) == Some(d)
            &&& '0' <= d.last() <= '9'
            &&& n <= u64::MAX ==> text::unsigned_value(d, 10, u64::MAX as nat) == Some(n)
            &&& n > u64::MAX ==> text::unsigned_value(d, 10, u64::MAX as nat) is None
        }),
{
    text::digits_read_back(n, 10);
    lemma_decimal(n);
    let d = text::decimal(n);
    let s = d + unit;
    assert(s.take(d.len() as int) =~= d);
    assert(s.subrange(d.len() as int, s.len() as int) =~= unit);
    assert(s.skip(d.len() as int) =~= unit);
    assert('0' <= d[0] <= '9');
    assert('0' <= d[d.len() - 1] <= '9');
}

proof fn lemma_other_unit(s: Seq<char>, unit: Seq<char>)
    requires
        unit.len() > 0,
        s.len() < unit.len() || (exists|k: int|
            0 < k <= unit.len() && #[trigger] s[s.len() - k] != unit[unit.len() - k]),
    ensures
        words::before(s, unit) is None,
{
    if unit.is_suffix_of(s) {
        let k = choose|k: int|
            0 < k <= unit.len() && #[trigger] s[s.len() - k] != unit[unit.len() - k];
        assert(s.subrange(s.len() - unit.len(), s.len() as int)[unit.len() - k] == s[s.len() - k]);
    }
}

/// A number with a unit is so many of it in nanoseconds, and one without is
/// nanoseconds; one that is too long is none.
pub proof fn a_number_with_a_unit_is_a_duration(n: nat)
    ensures
        ({
            let d = text::decimal(n);
            let ns = |x: int| if x <= u64::MAX {
                Some(x as u64)
            } else {
                None::<u64>
            };
            &&& duration(d) == ns(n as int)
            &&& duration(d + seq!['n', 's']) == ns(n as int)
            &&& duration(d + seq!['u', 's']) == ns((n * 1_000) as int)
            &&& duration(d + seq!['m', 's']) == ns((n * 1_000_000) as int)
            &&& duration(d + seq!['s']) == ns((n * 1_000_000_000) as int)
        }),
{
    lemma_in_nanoseconds(n);
    lemma_in_microseconds(n);
    lemma_in_milliseconds(n);
    lemma_in_seconds(n);
    lemma_scaled_number(n, 1);
    lemma_scaled_number(n, 1_000);
    lemma_scaled_number(n, 1_000_000);
    lemma_scaled_number(n, 1_000_000_000);
}

proof fn lemma_scaled_number(n: nat, k: int)
    requires
        k >= 1,
    ensures
        scaled(text::decimal(n), k) == (if n * k <= u64::MAX {
            Some((n * k) as u64)
        } else {
            None
        }),
{
    lemma_number(n, Seq::empty());
    assert(n > u64::MAX ==> n * k > u64::MAX) by (nonlinear_arith)
        requires
            k >= 1,
    ;
}

proof fn lemma_units()
    ensures
        "ns"@ == seq!['n', 's'],
        "us"@ == seq!['u', 's'],
        "ms"@ == seq!['m', 's'],
        "s"@ == seq!['s'],
{
    reveal_strlit("ns");
    reveal_strlit("us");
    reveal_strlit("ms");
    reveal_strlit("s");
    assert("ns"@ =~= seq!['n', 's']);
    assert("us"@ =~= seq!['u', 's']);
    assert("ms"@ =~= seq!['m', 's']);
    assert("s"@ =~= seq!['s']);
}

proof fn lemma_in_nanoseconds(n: nat)
    ensures
        duration(text::decimal(n)) == scaled(text::decimal(n), 1),
        duration(text::decimal(n) + seq!['n', 's']) == scaled(text::decimal(n), 1),
{
    lemma_units();
    let d = text::decimal(n);
    lemma_number(n, seq!['n', 's']);
    lemma_two_letters(d, 'n');
    lemma_two_letters(d, 'u');
    lemma_two_letters(d, 'm');
    lemma_last_letter(d, 's');
}

proof fn lemma_in_microseconds(n: nat)
    ensures
        duration(text::decimal(n) + seq!['u', 's']) == scaled(text::decimal(n), 1_000),
{
    lemma_units();
    lemma_number(n, seq!['u', 's']);
    let a = text::decimal(n) + seq!['u', 's'];
    assert(a[a.len() - 2] == 'u' && a[a.len() - 1] == 's');
    lemma_two_letters(a, 'n');
}

proof fn lemma_in_milliseconds(n: nat)
    ensures
        duration(text::decimal(n) + seq!['m', 's']) == scaled(text::decimal(n), 1_000_000),
{
    lemma_units();
    lemma_number(n, seq!['m', 's']);
    let b = text::decimal(n) + seq!['m', 's'];
    assert(b[b.len() - 2] == 'm' && b[b.len() - 1] == 's');
    lemma_two_letters(b, 'n');
    lemma_two_letters(b, 'u');
}

proof fn lemma_in_seconds(n: nat)
    ensures
        duration(text::decimal(n) + seq!['s']) == scaled(text::decimal(n), 1_000_000_000),
{
    lemma_units();
    lemma_number(n, seq!['s']);
    let d = text::decimal(n);
    let c = d + seq!['s'];
    assert(c[c.len() - 2] == d.last() && c[c.len() - 1] == 's');
    lemma_two_letters(c, 'n');
    lemma_two_letters(c, 'u');
    lemma_two_letters(c, 'm');
}

proof fn lemma_two_letters(s: Seq<char>, c: char)
    requires
        s.len() > 0,
        s.len() < 2 || s[s.len() - 2] != c || s[s.len() - 1] != 's',
    ensures
        words::before(s, seq![c, 's']) is None,
{
    let u = seq![c, 's'];
    if u.is_suffix_of(s) {
        let tail = s.subrange(s.len() - 2, s.len() as int);
        assert(tail == u);
        assert(tail[0] == s[s.len() - 2] && tail[1] == s[s.len() - 1]);
    }
}

/// A number with a letter is so many binary thousands, millions, and so on, of
/// bytes, and one without is bytes; one that is too large is none.
#[verifier::rlimit(40)]
pub proof fn a_number_with_a_letter_is_a_size(n: nat)
    ensures
        ({
            let d = text::decimal(n);
            let bytes = |x: int| if x <= u64::MAX {
                Some(x as u64)
            } else {
                None::<u64>
            };
            &&& size(d) == bytes(n as int)
            &&& size(d.push('K')) == bytes((n * 1024) as int)
            &&& size(d.push('M')) == bytes((n * 1024 * 1024) as int)
            &&& size(d.push('G')) == bytes((n * 1024 * 1024 * 1024) as int)
            &&& size(d.push('T')) == bytes((n * 1024 * 1024 * 1024 * 1024) as int)
        }),
{
    reveal_strlit("K");
    reveal_strlit("M");
    reveal_strlit("G");
    reveal_strlit("T");
    let d = text::decimal(n);
    lemma_number(n, "K"@);
    lemma_number(n, "M"@);
    lemma_number(n, "G"@);
    lemma_number(n, "T"@);
    assert(d + "K"@ =~= d.push('K'));
    assert(d + "M"@ =~= d.push('M'));
    assert(d + "G"@ =~= d.push('G'));
    assert(d + "T"@ =~= d.push('T'));
    assert("K"@ =~= seq!['K']);
    assert("M"@ =~= seq!['M']);
    assert("G"@ =~= seq!['G']);
    assert("T"@ =~= seq!['T']);
    lemma_last_letter(d, 'K');
    lemma_last_letter(d, 'M');
    lemma_last_letter(d, 'G');
    lemma_last_letter(d, 'T');
    lemma_last_letter(d.push('M'), 'K');
    lemma_last_letter(d.push('G'), 'K');
    lemma_last_letter(d.push('G'), 'M');
    lemma_last_letter(d.push('T'), 'K');
    lemma_last_letter(d.push('T'), 'M');
    lemma_last_letter(d.push('T'), 'G');
}

proof fn lemma_last_letter(s: Seq<char>, c: char)
    requires
        s.len() > 0,
        s.last() != c,
    ensures
        words::before(s, seq![c]) is None,
{
    let u = seq![c];
    assert(s[s.len() - 1] != u[u.len() - 1]);
    lemma_other_unit(s, u);
}

/// Two durations with two dots between are a range where the first is not the
/// longer, and one is a range of itself.
#[verifier::rlimit(40)]
pub proof fn two_durations_are_a_range(a: Seq<char>, b: Seq<char>, lo: u64, hi: u64)
    requires
        !a.contains('.'),
        duration(a) == Some(lo),
        duration(b) == Some(hi),
    ensures
        span(a + seq!['.', '.'] + b) == (if lo <= hi {
            Some((lo, hi))
        } else {
            None
        }),
        span(a) == Some((lo, lo)),
{
    lemma_dots();
    let s = a + seq!['.', '.'] + b;
    words::a_text_is_split_where_it_stands(a, seq!['.', '.'], b);
    lemma_no_dots(a, 0);
    lemma_span_of(s, a, b);
    lemma_span_alone(a);
}

proof fn lemma_dots()
    ensures
        ".."@ == seq!['.', '.'],
{
    reveal_strlit("..");
    assert(".."@ =~= seq!['.', '.']);
}

proof fn lemma_span_of(s: Seq<char>, a: Seq<char>, b: Seq<char>)
    requires
        words::split_at_text(s, ".."@) == Some((a, b)),
    ensures
        span(s) == match (duration(a), duration(b)) {
            (Some(lo), Some(hi)) => if lo <= hi {
                Some((lo, hi))
            } else {
                None
            },
            _ => None,
        },
{
}

proof fn lemma_span_alone(s: Seq<char>)
    requires
        words::split_at_text(s, ".."@) is None,
    ensures
        span(s) == match duration(s) {
            Some(t) => Some((t, t)),
            None => None,
        },
{
}

proof fn lemma_no_dots(s: Seq<char>, from: int)
    requires
        0 <= from,
        !s.contains('.'),
    ensures
        words::first_from(s, seq!['.', '.'], from) is None,
    decreases s.len() - from,
{
    let p = seq!['.', '.'];
    if from + p.len() <= s.len() {
        assert(!words::occurs(s, p, from)) by {
            assert(s.contains(s[from]));
            assert(s.subrange(from, from + p.len())[0] == s[from]);
        }
        lemma_no_dots(s, from + 1);
    }
}

} // verus!
