//! Parts of texts: prefixes and suffixes, words, numbers of a fixed width,
//! and the order of texts.

use vstd::prelude::*;
use crate::text;
use crate::text::{chars_of, part, same_chars, starts_with, string_of};

verus! {

/// What follows a prefix
pub open spec fn after(s: Seq<char>, prefix: Seq<char>) -> Option<Seq<char>> {
    if prefix.is_prefix_of(s) {
        Some(s.skip(prefix.len() as int))
    } else {
        None
    }
}

/// What stands before a suffix
pub open spec fn before(s: Seq<char>, suffix: Seq<char>) -> Option<Seq<char>> {
    if suffix.is_suffix_of(s) {
        Some(s.take(s.len() - suffix.len()))
    } else {
        None
    }
}

pub fn after_prefix(chars: &Vec<char>, prefix: &str) -> (r: Option<Vec<char>>)
    ensures
        match r {
            Some(v) => after(chars@, prefix@) == Some(v@),
            None => after(chars@, prefix@) is None,
        },
{
    if !starts_with(chars, prefix) {
        return None;
    }
    let n: usize = chars_of(prefix).len();
    let v = part(chars, n, chars.len());
    assert(v@ =~= chars@.skip(n as int));
    Some(v)
}

pub fn before_suffix(chars: &Vec<char>, suffix: &str) -> (r: Option<Vec<char>>)
    ensures
        match r {
            Some(v) => before(chars@, suffix@) == Some(v@),
            None => before(chars@, suffix@) is None,
        },
{
    let s = chars_of(suffix);
    if s.len() > chars.len() {
        return None;
    }
    let n: usize = chars.len() - s.len();
    let end = part(chars, n, chars.len());
    if !same_chars(&end, &s) {
        return None;
    }
    let v = part(chars, 0, n);
    assert(v@ =~= chars@.take(n as int));
    Some(v)
}

/// `p` stands in `s` at `at`.
pub open spec fn occurs(s: Seq<char>, p: Seq<char>, at: int) -> bool {
    0 <= at && at + p.len() <= s.len() && s.subrange(at, at + p.len()) == p
}

/// Where `p` stands in `s` first, from `at` on
pub open spec fn first_from(s: Seq<char>, p: Seq<char>, at: int) -> Option<int>
    decreases s.len() - at,
{
    if at < 0 || at + p.len() > s.len() {
        None
    } else if occurs(s, p, at) {
        Some(at)
    } else if at >= s.len() {
        None
    } else {
        first_from(s, p, at + 1)
    }
}

/// Where `p` stands in `s` last, up to `at`
pub open spec fn last_upto(s: Seq<char>, p: Seq<char>, at: int) -> Option<int>
    decreases at + 1,
{
    if at < 0 {
        None
    } else if occurs(s, p, at) {
        Some(at)
    } else {
        last_upto(s, p, at - 1)
    }
}

/// What stands before and behind the first `p` in `s`
pub open spec fn split_at_text(s: Seq<char>, p: Seq<char>) -> Option<(Seq<char>, Seq<char>)> {
    match first_from(s, p, 0) {
        Some(at) => Some((s.take(at), s.skip(at + p.len()))),
        None => None,
    }
}

/// What stands before and behind the last `p` in `s`
pub open spec fn split_at_last(s: Seq<char>, p: Seq<char>) -> Option<(Seq<char>, Seq<char>)> {
    match last_upto(s, p, s.len() as int) {
        Some(at) => Some((s.take(at), s.skip(at + p.len()))),
        None => None,
    }
}

fn stands_at(chars: &Vec<char>, p: &Vec<char>, at: usize) -> (r: bool)
    requires
        at + p@.len() <= chars@.len(),
    ensures
        r == occurs(chars@, p@, at as int),
{
    let n: usize = chars.len();
    assert(at + p@.len() <= n);
    let here = part(chars, at, at + p.len());
    same_chars(&here, p)
}

pub fn split_once_text(chars: &Vec<char>, sep: &str) -> (r: Option<(Vec<char>, Vec<char>)>)
    ensures
        match r {
            Some((a, b)) => split_at_text(chars@, sep@) == Some((a@, b@)),
            None => split_at_text(chars@, sep@) is None,
        },
{
    let p = chars_of(sep);
    let n: usize = chars.len();
    let mut at: usize = 0;
    while p.len() <= n && at <= n - p.len()
        invariant
            n == chars@.len(),
            p@ == sep@,
            at <= n + 1,
            first_from(chars@, p@, 0) == first_from(chars@, p@, at as int),
        decreases n + 1 - at,
    {
        if stands_at(chars, &p, at) {
            let head = part(chars, 0, at);
            let tail = part(chars, at + p.len(), n);
            assert(head@ =~= chars@.take(at as int));
            assert(tail@ =~= chars@.skip(at + p@.len()));
            return Some((head, tail));
        }
        if at >= n {
            return None;
        }
        at += 1;
    }
    None
}

pub fn split_once_last(chars: &Vec<char>, sep: &str) -> (r: Option<(Vec<char>, Vec<char>)>)
    ensures
        match r {
            Some((a, b)) => split_at_last(chars@, sep@) == Some((a@, b@)),
            None => split_at_last(chars@, sep@) is None,
        },
{
    let p = chars_of(sep);
    let n: usize = chars.len();
    let mut at: usize = n;
    loop
        invariant
            n == chars@.len(),
            p@ == sep@,
            at <= n,
            last_upto(chars@, p@, n as int) == last_upto(chars@, p@, at as int),
        decreases at,
    {
        if p.len() <= n - at && stands_at(chars, &p, at) {
            let head = part(chars, 0, at);
            let tail = part(chars, at + p.len(), n);
            assert(head@ =~= chars@.take(at as int));
            assert(tail@ =~= chars@.skip(at + p@.len()));
            return Some((head, tail));
        }
        if at == 0 {
            assert(last_upto(chars@, p@, -1) is None);
            return None;
        }
        at -= 1;
    }
}

/// How many characters the word at the start has
pub open spec fn word_len(s: Seq<char>) -> nat
    decreases s.len(),
{
    if s.len() == 0 || text::is_space(s[0]) {
        0
    } else {
        1 + word_len(s.skip(1))
    }
}

/// The words of a text: what stands between white space
pub open spec fn words_of(s: Seq<char>) -> Seq<Seq<char>>
    decreases s.len(),
{
    if s.len() == 0 {
        Seq::empty()
    } else if text::is_space(s[0]) {
        words_of(s.skip(1))
    } else {
        proof {
            lemma_word_len(s);
        }
        seq![s.take(word_len(s) as int)] + words_of(s.skip(word_len(s) as int))
    }
}

pub proof fn lemma_word_len(s: Seq<char>)
    ensures
        word_len(s) <= s.len(),
        s.len() > 0 && !text::is_space(s[0]) ==> word_len(s) > 0,
    decreases s.len(),
{
    if s.len() > 0 && !text::is_space(s[0]) {
        lemma_word_len(s.skip(1));
    }
}

pub fn words(chars: &Vec<char>) -> (r: Vec<String>)
    ensures
        texts(r@) == words_of(chars@),
{
    let mut out: Vec<String> = Vec::new();
    let mut i: usize = 0;
    assert(chars@.skip(0) =~= chars@);
    assert(texts(out@) + words_of(chars@) =~= words_of(chars@));
    while i < chars.len()
        invariant
            i <= chars@.len(),
            texts(out@) + words_of(chars@.skip(i as int)) == words_of(chars@),
        decreases chars@.len() - i,
    {
        let ghost rest = chars@.skip(i as int);
        if text::space(chars[i]) {
            assert(rest.skip(1) =~= chars@.skip(i + 1));
            i += 1;
        } else {
            let from: usize = i;
            assert(rest.skip(0) =~= rest);
            while i < chars.len() && !text::space(chars[i])
                invariant
                    from <= i <= chars@.len(),
                    rest == chars@.skip(from as int),
                    word_len(rest) == (i - from) + word_len(chars@.skip(i as int)),
                decreases chars@.len() - i,
            {
                assert(chars@.skip(i as int).skip(1) =~= chars@.skip(i + 1));
                i += 1;
            }
            let word = part(chars, from, i);
            let ghost was = out@;
            out.push(string_of(&word));
            proof {
                lemma_word_len(rest);
                assert(word@ =~= rest.take(word_len(rest) as int));
                assert(rest.skip(word_len(rest) as int) =~= chars@.skip(i as int));
                assert(texts(out@) =~= texts(was).push(word@));
                assert(texts(was) + (seq![word@] + words_of(chars@.skip(i as int)))
                    =~= texts(was).push(word@) + words_of(chars@.skip(i as int)));
            }
        }
    }
    assert(texts(out@) + words_of(chars@.skip(i as int)) =~= texts(out@));
    out
}

/// The characters of each string
pub open spec fn texts(v: Seq<String>) -> Seq<Seq<char>> {
    v.map_values(|s: String| s@)
}

/// `n` zeros
pub open spec fn zeros(n: int) -> Seq<char> {
    Seq::new(
        if n < 0 {
            0
        } else {
            n as nat
        },
        |i: int| '0',
    )
}

/// A number in at least `width` digits
pub open spec fn padded(n: nat, base: nat, width: int) -> Seq<char> {
    zeros(width - text::digits(n, base).len()) + text::digits(n, base)
}

fn digit_count(n: u64, base: u64) -> (r: u64)
    requires
        base == 10 || base == 16,
    ensures
        r == text::digits(n as nat, base as nat).len(),
        1 <= r <= 64,
{
    let mut count: u64 = 1;
    let mut left: u64 = n;
    proof {
        vstd::arithmetic::power2::lemma2_to64();
        lemma_digits_len(n as nat, base as nat, 64);
    }
    while left >= base
        invariant
            base == 10 || base == 16,
            1 <= count,
            count + text::digits(left as nat, base as nat).len() == text::digits(
                n as nat,
                base as nat,
            ).len() + 1,
            text::digits(n as nat, base as nat).len() <= 64,
        decreases left,
    {
        assert(text::digits(left as nat, base as nat) == text::digits(
            left as nat / base as nat,
            base as nat,
        ).push(text::digit(left as nat % base as nat)));
        proof {
            lemma_some_digit((left / base) as nat, base as nat);
        }
        count += 1;
        left = left / base;
    }
    count
}

proof fn lemma_some_digit(n: nat, base: nat)
    ensures
        text::digits(n, base).len() >= 1,
    decreases n,
{
    if !(n < base || base < 2) {
        assert(n / base < n) by (nonlinear_arith)
            requires
                n >= base,
                base >= 2,
        ;
        lemma_some_digit(n / base, base);
    }
}

/// A number below two to the `bits` has at most so many digits.
proof fn lemma_digits_len(n: nat, base: nat, bits: nat)
    requires
        base >= 2,
        bits >= 1,
        n < vstd::arithmetic::power2::pow2(bits),
    ensures
        text::digits(n, base).len() <= bits,
    decreases bits,
{
    vstd::arithmetic::power2::lemma_pow2_unfold(bits);
    if n >= base {
        if bits == 1 {
            vstd::arithmetic::power2::lemma2_to64();
        } else {
            assert(n / base < vstd::arithmetic::power2::pow2((bits - 1) as nat)) by (
            nonlinear_arith)
                requires
                    base >= 2,
                    n < 2 * vstd::arithmetic::power2::pow2((bits - 1) as nat),
            ;
            lemma_digits_len(n / base, base, (bits - 1) as nat);
        }
    }
}

/// Append a number in at least `width` digits.
pub fn push_padded(out: &mut String, n: u64, base: u64, width: u64)
    requires
        base == 10 || base == 16,
    ensures
        final(out)@ == old(out)@ + padded(n as nat, base as nat, width as int),
{
    let count: u64 = digit_count(n, base);
    let missing: u64 = if count < width {
        width - count
    } else {
        0
    };
    let mut i: u64 = 0;
    assert(out@ =~= old(out)@ + zeros(0));
    while i < missing
        invariant
            i <= missing,
            out@ == old(out)@ + zeros(i as int),
        decreases missing - i,
    {
        out.push('0');
        i += 1;
        assert(out@ =~= old(out)@ + zeros(i as int));
    }
    if base == 10 {
        text::push_decimal(out, n);
    } else {
        text::push_hex_digits(out, n);
    }
    assert(zeros(missing as int) =~= zeros(width - count));
    assert(out@ =~= old(out)@ + padded(n as nat, base as nat, width as int));
}

/// A whole number in decimal
pub open spec fn signed(n: int) -> Seq<char> {
    if n < 0 {
        seq!['-'] + text::decimal((-n) as nat)
    } else {
        text::decimal(n as nat)
    }
}

pub fn push_signed(out: &mut String, n: i64)
    ensures
        final(out)@ == old(out)@ + signed(n as int),
{
    if n < 0 {
        out.push('-');
        let size: u64 = (-(n as i128)) as u64;
        text::push_decimal(out, size);
        assert(out@ =~= old(out)@ + signed(n as int));
    } else {
        text::push_decimal(out, n as u64);
    }
}

/// `a` comes before `b`: at the first place where they differ, or because
/// `b` goes on.
pub open spec fn precedes(a: Seq<char>, b: Seq<char>) -> bool
    decreases a.len(),
{
    if b.len() == 0 {
        false
    } else if a.len() == 0 {
        true
    } else if a[0] != b[0] {
        a[0] < b[0]
    } else {
        precedes(a.skip(1), b.skip(1))
    }
}

pub fn comes_before(a: &str, b: &str) -> (r: bool)
    ensures
        r == precedes(a@, b@),
{
    let x = chars_of(a);
    let y = chars_of(b);
    let mut i: usize = 0;
    assert(a@.skip(0) =~= a@ && b@.skip(0) =~= b@);
    while i < x.len() && i < y.len()
        invariant
            x@ == a@,
            y@ == b@,
            i <= x@.len(),
            i <= y@.len(),
            precedes(a@, b@) == precedes(a@.skip(i as int), b@.skip(i as int)),
        decreases x@.len() - i,
    {
        if x[i] != y[i] {
            return x[i] < y[i];
        }
        assert(a@.skip(i as int).skip(1) =~= a@.skip(i + 1));
        assert(b@.skip(i as int).skip(1) =~= b@.skip(i + 1));
        i += 1;
    }
    i < y.len()
}

/// Two different texts: one comes before the other, and not the other way
/// round.
pub proof fn texts_are_in_order(a: Seq<char>, b: Seq<char>)
    ensures
        precedes(a, b) || precedes(b, a) || a == b,
        !(precedes(a, b) && precedes(b, a)),
        precedes(a, b) ==> a != b,
    decreases a.len(),
{
    if a.len() > 0 && b.len() > 0 && a[0] == b[0] {
        texts_are_in_order(a.skip(1), b.skip(1));
        if a.skip(1) == b.skip(1) {
            assert(a =~= seq![a[0]] + a.skip(1));
            assert(b =~= seq![b[0]] + b.skip(1));
        }
    } else if a.len() == 0 && b.len() == 0 {
        assert(a =~= b);
    }
}

pub proof fn lemma_precedes_on(a: Seq<char>, b: Seq<char>, c: Seq<char>)
    requires
        precedes(a, b),
        precedes(b, c),
    ensures
        precedes(a, c),
    decreases a.len(),
{
    if a.len() > 0 && b.len() > 0 && c.len() > 0 && a[0] == b[0] && b[0] == c[0] {
        lemma_precedes_on(a.skip(1), b.skip(1), c.skip(1));
    }
}

/// A string of several
pub fn joined(parts: &Vec<String>, sep: &str) -> (r: String)
    ensures
        r@ == all_joined(texts(parts@), sep@),
{
    let mut out = String::new();
    let mut i: usize = 0;
    while i < parts.len()
        invariant
            i <= parts@.len(),
            out@ == all_joined(texts(parts@).take(i as int), sep@),
        decreases parts@.len() - i,
    {
        if i > 0 {
            out.append(sep);
        }
        out.append(parts[i].as_str());
        proof {
            let a = texts(parts@).take(i + 1);
            assert(a.drop_last() =~= texts(parts@).take(i as int));
            assert(out@ =~= all_joined(a, sep@));
        }
        i += 1;
    }
    assert(texts(parts@).take(i as int) =~= texts(parts@));
    out
}

/// Texts behind each other, with `sep` between
pub open spec fn all_joined(parts: Seq<Seq<char>>, sep: Seq<char>) -> Seq<char>
    decreases parts.len(),
{
    if parts.len() == 0 {
        Seq::empty()
    } else if parts.len() == 1 {
        parts[0]
    } else {
        all_joined(parts.drop_last(), sep) + sep + parts.last()
    }
}

/// The whole number that `s` stands for in decimal, if it is one and fits 64
/// bits
pub open spec fn signed_value(s: Seq<char>) -> Option<int> {
    if s.len() > 0 && s[0] == '-' {
        let body = s.skip(1);
        if body.len() > 0 && body[0] == '+' {
            None
        } else {
            match text::unsigned_value(body, 10, 0x8000_0000_0000_0000) {
                Some(n) => Some(-n),
                None => None,
            }
        }
    } else {
        match text::unsigned_value(s, 10, 0x7FFF_FFFF_FFFF_FFFF) {
            Some(n) => Some(n as int),
            None => None,
        }
    }
}

/// `i64::from_str`
pub fn parse_signed(chars: &Vec<char>) -> (r: Option<i64>)
    ensures
        match r {
            Some(n) => signed_value(chars@) == Some(n as int),
            None => signed_value(chars@) is None,
        },
{
    if chars.len() > 0 && chars[0] == '-' {
        let body = text::part(chars, 1, chars.len());
        assert(body@ =~= chars@.skip(1));
        if body.len() > 0 && body[0] == '+' {
            return None;
        }
        return match text::parse_unsigned(&body, 10, 0x8000_0000_0000_0000) {
            Some(n) => Some((-(n as i128)) as i64),
            None => None,
        };
    }
    match text::parse_unsigned(chars, 10, 0x7FFF_FFFF_FFFF_FFFF) {
        Some(n) => Some(n as i64),
        None => None,
    }
}

/// Leading zeros change nothing: a padded number reads back.
pub proof fn padded_numbers_read_back(n: nat, base: nat, width: int)
    requires
        2 <= base <= 16,
    ensures
        padded(n, base, width).len() > 0,
        text::digits_value(padded(n, base, width), base) == Some(n),
        forall|i: int|
            0 <= i < padded(n, base, width).len() ==> ('0' <= #[trigger] padded(n, base, width)[i]
                <= '9' || 'a' <= padded(n, base, width)[i] <= 'f'),
{
    text::digits_read_back(n, base);
    let d = text::digits(n, base);
    let k = width - d.len();
    lemma_leading_zeros(k, d, base);
    let p = padded(n, base, width);
    assert forall|i: int| 0 <= i < p.len() implies ('0' <= #[trigger] p[i] <= '9' || 'a' <= p[i]
        <= 'f') by {
        let z = zeros(k).len();
        if i < z {
            assert(p[i] == zeros(k)[i]);
        } else {
            assert(p[i] == d[i - z]);
        }
    }
}

proof fn lemma_leading_zeros(k: int, d: Seq<char>, base: nat)
    requires
        2 <= base <= 16,
    ensures
        text::digits_value(zeros(k) + d, base) == text::digits_value(d, base),
    decreases d.len(), k,
{
    let s = zeros(k) + d;
    if d.len() > 0 {
        assert(s.drop_last() =~= zeros(k) + d.drop_last());
        lemma_leading_zeros(k, d.drop_last(), base);
    } else if k > 0 {
        assert(s.drop_last() =~= zeros(k - 1) + d);
        lemma_leading_zeros(k - 1, d, base);
        assert(s.last() == '0');
        assert(0nat * base + 0 == 0);
    } else {
        assert(s =~= d);
    }
}

/// A text stands where it first stands: what is before it holds no letter that
/// it begins with.
pub proof fn a_text_is_split_where_it_stands(a: Seq<char>, p: Seq<char>, b: Seq<char>)
    requires
        p.len() > 0,
        !a.contains(p[0]),
    ensures
        split_at_text(a + p + b, p) == Some((a, b)),
{
    let s = a + p + b;
    let at = a.len() as int;
    assert(s.subrange(at, at + p.len()) =~= p);
    assert forall|k: int| 0 <= k < at implies #[trigger] s[k] != p[0] by {
        assert(a.contains(a[k]));
    }
    lemma_first_from(s, p, 0, at);
    assert(s.take(at) =~= a);
    assert(s.skip(at + p.len()) =~= b);
}

proof fn lemma_first_from(s: Seq<char>, p: Seq<char>, from: int, at: int)
    requires
        p.len() > 0,
        0 <= from <= at,
        at + p.len() <= s.len(),
        occurs(s, p, at),
        forall|k: int| from <= k < at ==> #[trigger] s[k] != p[0],
    ensures
        first_from(s, p, from) == Some(at),
    decreases at - from,
{
    if from < at {
        assert(!occurs(s, p, from)) by {
            assert(s.subrange(from, from + p.len())[0] == s[from]);
        }
        lemma_first_from(s, p, from + 1, at);
    }
}

/// A text is split at the last mark: what is behind it holds no letter that the
/// mark begins with.
pub proof fn a_text_is_split_at_the_last(a: Seq<char>, p: Seq<char>, b: Seq<char>)
    requires
        p.len() == 1,
        !b.contains(p[0]),
    ensures
        split_at_last(a + p + b, p) == Some((a, b)),
{
    let s = a + p + b;
    let at = a.len() as int;
    assert(s.subrange(at, at + 1) =~= p);
    assert(s.take(at) =~= a);
    assert(s.skip(at + 1) =~= b);
    lemma_last_upto(s, p, at, s.len() as int, b);
}

proof fn lemma_last_upto(s: Seq<char>, p: Seq<char>, at: int, from: int, b: Seq<char>)
    requires
        p.len() == 1,
        0 <= at <= from <= s.len(),
        s.len() == at + 1 + b.len(),
        occurs(s, p, at),
        s.skip(at + 1) == b,
        !b.contains(p[0]),
    ensures
        last_upto(s, p, from) == Some(at),
    decreases from - at,
{
    if from > at {
        assert(!occurs(s, p, from)) by {
            if occurs(s, p, from) {
                assert(s.subrange(from, from + 1)[0] == s[from]);
                assert(b[from - at - 1] == s[from]);
                assert(b.contains(p[0]));
            }
        }
        lemma_last_upto(s, p, at, from - 1, b);
    }
}

/// A signed number that was written is the one that is read.
pub proof fn a_written_signed_number_is_read(n: int)
    requires
        i64::MIN <= n <= i64::MAX,
    ensures
        signed_value(signed(n)) == Some(n),
{
    if n < 0 {
        text::digits_read_back((-n) as nat, 10);
        text::a_written_number_is_read((-n) as nat, 10, 0x8000_0000_0000_0000);
        let d = text::decimal((-n) as nat);
        assert(signed(n).skip(1) =~= d);
        assert('0' <= d[0] <= '9' || 'a' <= d[0] <= 'f');
    } else {
        text::digits_read_back(n as nat, 10);
        text::a_written_number_is_read(n as nat, 10, 0x7FFF_FFFF_FFFF_FFFF);
        let d = text::decimal(n as nat);
        assert('0' <= d[0] <= '9' || 'a' <= d[0] <= 'f');
    }
}

} // verus!
