//! Text as sequences of characters: reading strings, comparing and taking
//! them apart, and numbers in decimal and hexadecimal.

use vstd::prelude::*;

verus! {

/// `String::push` appends one character.
pub assume_specification[ String::push ](s: &mut String, c: char)
    ensures
        final(s)@ == old(s)@.push(c),
;

/// The characters of a string
pub fn chars_of(s: &str) -> (r: Vec<char>)
    ensures
        r@ == s@,
{
    let mut out: Vec<char> = Vec::new();
    for c in it: s.chars()
        invariant
            it.seq() == s@,
            out@ == s@.take(it.index()),
    {
        assert(s@.take(it.index() + 1) =~= s@.take(it.index()).push(s@[it.index()]));
        out.push(c);
    }
    assert(s@.take(s@.len() as int) =~= s@);
    out
}

/// The string of these characters
pub fn string_of(chars: &Vec<char>) -> (r: String)
    ensures
        r@ == chars@,
{
    let mut out = String::new();
    let mut i: usize = 0;
    while i < chars.len()
        invariant
            i <= chars.len(),
            out@ == chars@.take(i as int),
        decreases chars.len() - i,
    {
        assert(chars@.take(i + 1) =~= chars@.take(i as int).push(chars@[i as int]));
        out.push(chars[i]);
        i += 1;
    }
    assert(chars@.take(i as int) =~= chars@);
    out
}

/// The characters from `from` up to `to`
pub fn part(chars: &Vec<char>, from: usize, to: usize) -> (r: Vec<char>)
    requires
        from <= to <= chars.len(),
    ensures
        r@ == chars@.subrange(from as int, to as int),
{
    let mut out: Vec<char> = Vec::new();
    let mut i: usize = from;
    while i < to
        invariant
            from <= i <= to <= chars.len(),
            out@ == chars@.subrange(from as int, i as int),
        decreases to - i,
    {
        assert(chars@.subrange(from as int, i + 1) =~= chars@.subrange(from as int, i as int).push(
            chars@[i as int],
        ));
        out.push(chars[i]);
        i += 1;
    }
    out
}

/// Whether two strings hold the same characters
pub fn same_text(a: &str, b: &str) -> (r: bool)
    ensures
        r == (a@ == b@),
{
    let x = chars_of(a);
    let y = chars_of(b);
    same_chars(&x, &y)
}

pub fn same_chars(a: &Vec<char>, b: &Vec<char>) -> (r: bool)
    ensures
        r == (a@ == b@),
{
    if a.len() != b.len() {
        return false;
    }
    let mut i: usize = 0;
    while i < a.len()
        invariant
            i <= a.len(),
            a.len() == b.len(),
            a@.take(i as int) == b@.take(i as int),
        decreases a.len() - i,
    {
        if a[i] != b[i] {
            return false;
        }
        assert(a@.take(i + 1) =~= a@.take(i as int).push(a@[i as int]));
        assert(b@.take(i + 1) =~= b@.take(i as int).push(b@[i as int]));
        i += 1;
    }
    assert(a@.take(i as int) =~= a@);
    assert(b@.take(i as int) =~= b@);
    true
}

/// Whether `chars` begins with the characters of `prefix`
pub fn starts_with(chars: &Vec<char>, prefix: &str) -> (r: bool)
    ensures
        r == prefix@.is_prefix_of(chars@),
{
    let p = chars_of(prefix);
    if p.len() > chars.len() {
        return false;
    }
    let head = part(chars, 0, p.len());
    let r = same_chars(&head, &p);
    proof {
        if prefix@.is_prefix_of(chars@) {
            assert(chars@.subrange(0, p@.len() as int) =~= p@);
        }
    }
    r
}

/// Where `c` first occurs
pub open spec fn first_at(s: Seq<char>, c: char, at: int) -> bool {
    &&& 0 <= at < s.len()
    &&& s[at] == c
    &&& forall|i: int| 0 <= i < at ==> s[i] != c
}

pub fn find(chars: &Vec<char>, c: char) -> (r: Option<usize>)
    ensures
        match r {
            Some(at) => first_at(chars@, c, at as int),
            None => !chars@.contains(c),
        },
{
    find_from(chars, c, 0)
}

/// The first place from `from` on that holds `c`
pub fn find_from(chars: &Vec<char>, c: char, from: usize) -> (r: Option<usize>)
    requires
        from <= chars.len(),
    ensures
        match r {
            Some(at) => from <= at < chars.len() && chars@[at as int] == c && forall|i: int|
                from <= i < at ==> chars@[i] != c,
            None => forall|i: int| from <= i < chars.len() ==> chars@[i] != c,
        },
{
    let mut i: usize = from;
    while i < chars.len()
        invariant
            from <= i <= chars.len(),
            forall|j: int| from <= j < i ==> chars@[j] != c,
        decreases chars.len() - i,
    {
        if chars[i] == c {
            return Some(i);
        }
        i += 1;
    }
    None
}

/// The last place that holds `c`
pub fn find_last(chars: &Vec<char>, c: char) -> (r: Option<usize>)
    ensures
        match r {
            Some(at) => at < chars.len() && chars@[at as int] == c && forall|i: int|
                at < i < chars.len() ==> chars@[i] != c,
            None => !chars@.contains(c),
        },
{
    let mut i: usize = chars.len();
    while i > 0
        invariant
            i <= chars.len(),
            forall|j: int| i <= j < chars.len() ==> chars@[j] != c,
        decreases i,
    {
        i -= 1;
        if chars[i] == c {
            return Some(i);
        }
    }
    None
}

/// Whether `s` has the separator `sep` in it, split there the first time:
/// what comes before it and what comes after it
pub open spec fn split_at_first(s: Seq<char>, sep: char) -> Option<(Seq<char>, Seq<char>)> {
    if s.contains(sep) {
        let at = choose|at: int| first_at(s, sep, at);
        Some((s.take(at), s.skip(at + 1)))
    } else {
        None
    }
}

pub proof fn lemma_split_at_first(s: Seq<char>, sep: char, at: int)
    requires
        first_at(s, sep, at),
    ensures
        split_at_first(s, sep) == Some((s.take(at), s.skip(at + 1))),
{
    let other = choose|k: int| first_at(s, sep, k);
    assert(first_at(s, sep, other));
    assert(other == at);
    assert(s.contains(sep));
}

pub fn split_once(chars: &Vec<char>, sep: char) -> (r: Option<(Vec<char>, Vec<char>)>)
    ensures
        match r {
            Some((a, b)) => split_at_first(chars@, sep) == Some((a@, b@)),
            None => split_at_first(chars@, sep) is None,
        },
{
    match find(chars, sep) {
        Some(at) => {
            proof {
                lemma_split_at_first(chars@, sep, at as int);
            }
            assert(at < chars.len());
            let a = part(chars, 0, at);
            let b = part(chars, at + 1, chars.len());
            assert(a@ =~= chars@.take(at as int));
            assert(b@ =~= chars@.skip(at + 1));
            Some((a, b))
        },
        None => None,
    }
}

/// The pieces of `s` between the separators; always at least one
pub open spec fn pieces(s: Seq<char>, sep: char) -> Seq<Seq<char>>
    decreases s.len(),
    via pieces_decreases
{
    match split_at_first(s, sep) {
        Some((head, rest)) => seq![head] + pieces(rest, sep),
        None => seq![s],
    }
}

#[via_fn]
proof fn pieces_decreases(s: Seq<char>, sep: char) {
    if s.contains(sep) {
        let k = choose|k: int| 0 <= k < s.len() && s[k] == sep;
        lemma_first_exists(s, sep, k);
    }
}

proof fn lemma_first_exists(s: Seq<char>, c: char, k: int)
    requires
        0 <= k < s.len(),
        s[k] == c,
    ensures
        exists|at: int| first_at(s, c, at),
    decreases k,
{
    if forall|i: int| 0 <= i < k ==> s[i] != c {
        assert(first_at(s, c, k));
    } else {
        let j = choose|i: int| 0 <= i < k && s[i] == c;
        lemma_first_exists(s, c, j);
    }
}

pub fn split(chars: &Vec<char>, sep: char) -> (r: Vec<Vec<char>>)
    ensures
        r.len() == pieces(chars@, sep).len(),
        forall|i: int| 0 <= i < r.len() ==> #[trigger] r@[i]@ == pieces(chars@, sep)[i],
{
    let mut out: Vec<Vec<char>> = Vec::new();
    let mut from: usize = 0;
    assert(chars@.skip(0) =~= chars@);
    loop
        invariant_except_break
            from <= chars.len(),
            out.len() + pieces(chars@.skip(from as int), sep).len() == pieces(chars@, sep).len(),
            forall|i: int| 0 <= i < out.len() ==> #[trigger] out@[i]@ == pieces(chars@, sep)[i],
            forall|i: int|
                0 <= i < pieces(chars@.skip(from as int), sep).len() ==> pieces(
                    chars@.skip(from as int),
                    sep,
                )[i] == #[trigger] pieces(chars@, sep)[out.len() + i],
        ensures
            out.len() == pieces(chars@, sep).len(),
            forall|i: int| 0 <= i < out.len() ==> #[trigger] out@[i]@ == pieces(chars@, sep)[i],
        decreases chars.len() - from,
    {
        let ghost rest = chars@.skip(from as int);
        let ghost all = pieces(chars@, sep);
        let ghost n = out.len() as int;
        match find_from(chars, sep, from) {
            Some(at) => {
                proof {
                    assert(rest[at - from] == sep);
                    assert(first_at(rest, sep, at - from));
                    lemma_split_at_first(rest, sep, at - from);
                    assert(rest.take(at - from) =~= chars@.subrange(from as int, at as int));
                    assert(rest.skip(at - from + 1) =~= chars@.skip(at + 1));
                    assert(pieces(rest, sep) == seq![rest.take(at - from)] + pieces(
                        chars@.skip(at + 1),
                        sep,
                    ));
                    assert(pieces(rest, sep)[0] == all[n + 0]);
                    assert forall|i: int| 0 <= i < pieces(chars@.skip(at + 1), sep).len() implies pieces(
                        chars@.skip(at + 1),
                        sep,
                    )[i] == #[trigger] all[n + 1 + i] by {
                        assert(pieces(rest, sep)[i + 1] == all[n + (i + 1)]);
                    }
                }
                out.push(part(chars, from, at));
                from = at + 1;
            },
            None => {
                proof {
                    if rest.contains(sep) {
                        let k = choose|k: int| 0 <= k < rest.len() && rest[k] == sep;
                        assert(chars@[from + k] == sep);
                    }
                    assert(pieces(rest, sep) =~= seq![rest]);
                    assert(rest =~= chars@.subrange(from as int, chars@.len() as int));
                    assert(pieces(rest, sep)[0] == all[n + 0]);
                }
                out.push(part(chars, from, chars.len()));
                break;
            },
        }
    }
    out
}

/// Without the carriage return a line may end with
pub open spec fn without_return(s: Seq<char>) -> Seq<char> {
    if s.len() > 0 && s.last() == '\r' {
        s.drop_last()
    } else {
        s
    }
}

/// The lines of a text, without their ends; an empty last one is none
pub open spec fn lines_of(s: Seq<char>) -> Seq<Seq<char>> {
    let all = pieces(s, '\n');
    let last = all.last();
    let ended = Seq::new((all.len() - 1) as nat, |i: int| without_return(all[i]));
    if last.len() == 0 {
        ended
    } else {
        ended.push(last)
    }
}

/// There is a first piece.
pub proof fn lemma_some_piece(s: Seq<char>, sep: char)
    ensures
        pieces(s, sep).len() > 0,
{
}

pub fn lines(text: &str) -> (r: Vec<Vec<char>>)
    ensures
        r.len() == lines_of(text@).len(),
        forall|i: int| 0 <= i < r.len() ==> #[trigger] r@[i]@ == lines_of(text@)[i],
{
    let chars = chars_of(text);
    let all = split(&chars, '\n');
    proof {
        lemma_some_piece(text@, '\n');
    }
    let ghost wanted = lines_of(text@);
    let mut out: Vec<Vec<char>> = Vec::new();
    let mut i: usize = 0;
    while i < all.len() - 1
        invariant
            all.len() > 0,
            all.len() == pieces(text@, '\n').len(),
            forall|j: int| 0 <= j < all.len() ==> #[trigger] all@[j]@ == pieces(text@, '\n')[j],
            i <= all.len() - 1,
            out.len() == i,
            wanted == lines_of(text@),
            forall|j: int| 0 <= j < i ==> #[trigger] out@[j]@ == wanted[j],
        decreases all.len() - i,
    {
        let line = &all[i];
        let n: usize = line.len();
        if n > 0 && line[n - 1] == '\r' {
            let short = part(line, 0, n - 1);
            assert(short@ =~= without_return(line@));
            out.push(short);
        } else {
            let whole = part(line, 0, n);
            assert(whole@ =~= without_return(line@));
            out.push(whole);
        }
        i += 1;
    }
    let last = &all[all.len() - 1];
    if last.len() > 0 {
        let whole = part(last, 0, last.len());
        assert(whole@ =~= last@);
        out.push(whole);
    }
    out
}

/// Unicode white space
pub open spec fn is_space(c: char) -> bool {
    ||| '\u{9}' <= c <= '\u{D}'
    ||| c == ' ' || c == '\u{85}' || c == '\u{A0}' || c == '\u{1680}'
    ||| '\u{2000}' <= c <= '\u{200A}'
    ||| c == '\u{2028}' || c == '\u{2029}' || c == '\u{202F}' || c == '\u{205F}' || c == '\u{3000}'
}

pub fn space(c: char) -> (r: bool)
    ensures
        r == is_space(c),
{
    ('\u{9}' <= c && c <= '\u{D}') || c == ' ' || c == '\u{85}' || c == '\u{A0}' || c == '\u{1680}'
        || ('\u{2000}' <= c && c <= '\u{200A}') || c == '\u{2028}' || c == '\u{2029}' || c
        == '\u{202F}' || c == '\u{205F}' || c == '\u{3000}'
}

/// `s` without the white space at its two ends
#[verifier::opaque]
pub open spec fn trimmed(s: Seq<char>) -> Seq<char>
    decreases s.len(),
{
    if s.len() == 0 {
        s
    } else if is_space(s[0]) {
        trimmed(s.skip(1))
    } else if is_space(s.last()) {
        trimmed(s.drop_last())
    } else {
        s
    }
}

proof fn lemma_trimmed(s: Seq<char>)
    ensures
        s.len() > 0 && is_space(s[0]) ==> trimmed(s) == trimmed(s.skip(1)),
        s.len() > 0 && !is_space(s[0]) && is_space(s.last()) ==> trimmed(s) == trimmed(
            s.drop_last(),
        ),
        s.len() == 0 || (!is_space(s[0]) && !is_space(s.last())) ==> trimmed(s) == s,
{
    reveal(trimmed);
}

pub fn trim(chars: &Vec<char>) -> (r: Vec<char>)
    ensures
        r@ == trimmed(chars@),
{
    let mut from: usize = 0;
    let mut to: usize = chars.len();
    assert(chars@.subrange(0, to as int) =~= chars@);
    while from < to && space(chars[from])
        invariant
            from <= to == chars.len(),
            trimmed(chars@.subrange(from as int, to as int)) == trimmed(chars@),
        decreases to - from,
    {
        proof {
            lemma_trimmed(chars@.subrange(from as int, to as int));
            assert(chars@.subrange(from as int, to as int).skip(1) =~= chars@.subrange(
                from + 1,
                to as int,
            ));
        }
        from += 1;
    }
    while from < to && space(chars[to - 1])
        invariant
            from <= to <= chars.len(),
            from < to ==> !is_space(chars@[from as int]),
            trimmed(chars@.subrange(from as int, to as int)) == trimmed(chars@),
        decreases to - from,
    {
        proof {
            lemma_trimmed(chars@.subrange(from as int, to as int));
            assert(chars@.subrange(from as int, to as int).drop_last() =~= chars@.subrange(
                from as int,
                to - 1,
            ));
        }
        to -= 1;
    }
    proof {
        lemma_trimmed(chars@.subrange(from as int, to as int));
    }
    part(chars, from, to)
}

/// The digit of value `d`
pub open spec fn digit(d: nat) -> char {
    if d < 10 {
        (48 + d) as char
    } else {
        (87 + d) as char
    }
}

/// `n` written in base `base`, without leading zeros
pub open spec fn digits(n: nat, base: nat) -> Seq<char>
    decreases n,
{
    if n < base || base < 2 {
        seq![digit(n)]
    } else {
        proof {
            assert(n / base < n) by (nonlinear_arith)
                requires
                    n >= base,
                    base >= 2,
            ;
        }
        digits(n / base, base).push(digit(n % base))
    }
}

/// `n` in decimal
pub open spec fn decimal(n: nat) -> Seq<char> {
    digits(n, 10)
}

/// `n` in hexadecimal, marked as such
pub open spec fn hex(n: nat) -> Seq<char> {
    seq!['0', 'x'] + digits(n, 16)
}

fn digit_char(d: u8) -> (r: char)
    requires
        d < 16,
    ensures
        r == digit(d as nat),
{
    if d < 10 {
        (48 + d) as char
    } else {
        (87 + d) as char
    }
}

pub fn push_decimal(out: &mut String, n: u64)
    ensures
        final(out)@ == old(out)@ + decimal(n as nat),
    decreases n,
{
    if n >= 10 {
        push_decimal(out, n / 10);
    }
    out.push(digit_char((n % 10) as u8));
    assert(out@ =~= old(out)@ + decimal(n as nat));
}

/// Hexadecimal digits alone
pub fn push_hex_digits(out: &mut String, n: u64)
    ensures
        final(out)@ == old(out)@ + digits(n as nat, 16),
    decreases n,
{
    if n >= 16 {
        push_hex_digits(out, n / 16);
    }
    out.push(digit_char((n % 16) as u8));
    assert(out@ =~= old(out)@ + digits(n as nat, 16));
}

pub fn push_hex(out: &mut String, n: u64)
    ensures
        final(out)@ == old(out)@ + hex(n as nat),
{
    out.push('0');
    out.push('x');
    push_hex_digits(out, n);
    assert(out@ =~= old(out)@ + hex(n as nat));
}

/// What a digit stands for, if it is one of base `base`
pub open spec fn digit_value(c: char, base: nat) -> Option<nat> {
    let v = if '0' <= c <= '9' {
        c as int - 48
    } else if 'a' <= c <= 'z' {
        c as int - 87
    } else if 'A' <= c <= 'Z' {
        c as int - 55
    } else {
        36
    };
    if v < base {
        Some(v as nat)
    } else {
        None
    }
}

/// The number a row of digits stands for; none where one is no digit
pub open spec fn digits_value(s: Seq<char>, base: nat) -> Option<nat>
    decreases s.len(),
{
    if s.len() == 0 {
        Some(0)
    } else {
        match (digits_value(s.drop_last(), base), digit_value(s.last(), base)) {
            (Some(v), Some(d)) => Some(v * base + d),
            _ => None,
        }
    }
}

/// The digits of an unsigned number, which may be marked positive
pub open spec fn unsigned_digits(s: Seq<char>) -> Seq<char> {
    if s.len() > 0 && s[0] == '+' {
        s.skip(1)
    } else {
        s
    }
}

/// The unsigned number `s` stands for in base `base`, if it is one and is at
/// most `max`
pub open spec fn unsigned_value(s: Seq<char>, base: nat, max: nat) -> Option<nat> {
    let body = unsigned_digits(s);
    if body.len() == 0 {
        None
    } else {
        match digits_value(body, base) {
            Some(v) if v <= max => Some(v),
            _ => None,
        }
    }
}

fn digit_of(c: char, base: u64) -> (r: Option<u64>)
    requires
        base <= 36,
    ensures
        match r {
            Some(v) => digit_value(c, base as nat) == Some(v as nat) && v < base,
            None => digit_value(c, base as nat) is None,
        },
{
    let v: u64 = if '0' <= c && c <= '9' {
        (c as u32 - 48) as u64
    } else if 'a' <= c && c <= 'z' {
        (c as u32 - 87) as u64
    } else if 'A' <= c && c <= 'Z' {
        (c as u32 - 55) as u64
    } else {
        36
    };
    if v < base {
        Some(v)
    } else {
        None
    }
}

/// More digits make no smaller number, and one that is no digit spoils it.
proof fn lemma_digits_grow(s: Seq<char>, k: int, base: nat)
    requires
        0 <= k <= s.len(),
        base >= 1,
    ensures
        digits_value(s, base) matches Some(v) ==> digits_value(s.take(k), base) matches Some(u)
            && u <= v,
    decreases s.len(),
{
    if k == s.len() {
        assert(s.take(k) =~= s);
    } else {
        lemma_digits_grow(s.drop_last(), k, base);
        assert(s.drop_last().take(k) =~= s.take(k));
        if digits_value(s, base) is Some {
            let v = digits_value(s.drop_last(), base).unwrap();
            assert(v <= v * base) by (nonlinear_arith)
                requires
                    base >= 1,
            ;
        }
    }
}

/// `u64::from_str_radix`, bounded by `max`
pub fn parse_unsigned(chars: &Vec<char>, base: u64, max: u64) -> (r: Option<u64>)
    requires
        base == 10 || base == 16,
    ensures
        match r {
            Some(v) => unsigned_value(chars@, base as nat, max as nat) == Some(v as nat),
            None => unsigned_value(chars@, base as nat, max as nat) is None,
        },
{
    let from: usize = if chars.len() > 0 && chars[0] == '+' {
        1
    } else {
        0
    };
    if from == chars.len() {
        return None;
    }
    let ghost body = unsigned_digits(chars@);
    assert(body =~= chars@.skip(from as int));
    let mut v: u64 = 0;
    let mut i: usize = from;
    assert(body.take(0) =~= Seq::<char>::empty());
    while i < chars.len()
        invariant
            base == 10 || base == 16,
            from <= i <= chars.len(),
            from < chars.len(),
            body == unsigned_digits(chars@),
            body == chars@.skip(from as int),
            digits_value(body.take(i - from), base as nat) == Some(v as nat),
            v <= max,
        decreases chars.len() - i,
    {
        let ghost prefix = body.take(i - from + 1);
        proof {
            assert(prefix.drop_last() =~= body.take(i - from));
            assert(prefix.last() == chars@[i as int]);
            lemma_digits_grow(body, i - from + 1, base as nat);
        }
        match digit_of(chars[i], base) {
            Some(d) => {
                let next: u128 = v as u128 * base as u128 + d as u128;
                if next > max as u128 {
                    return None;
                }
                v = next as u64;
            },
            None => {
                return None;
            },
        }
        i += 1;
    }
    assert(body.take(i - from) =~= body);
    Some(v)
}

/// A text without the separator is one piece.
pub proof fn lemma_no_separator(s: Seq<char>, sep: char)
    requires
        !s.contains(sep),
    ensures
        pieces(s, sep) == seq![s],
{
}

/// What a first piece is
pub proof fn lemma_first_piece(a: Seq<char>, sep: char, b: Seq<char>)
    requires
        !a.contains(sep),
    ensures
        pieces(a + seq![sep] + b, sep) == seq![a] + pieces(b, sep),
{
    let s = a + seq![sep] + b;
    let at = a.len() as int;
    assert(s[at] == sep);
    assert forall|i: int| 0 <= i < at implies s[i] != sep by {
        assert(s[i] == a[i]);
    }
    lemma_split_at_first(s, sep, at);
    assert(s.take(at) =~= a);
    assert(s.skip(at + 1) =~= b);
}

/// The pieces of two texts in a row: the last of the first and the first of
/// the second become one.
pub proof fn lemma_pieces_concat(x: Seq<char>, y: Seq<char>, sep: char)
    ensures
        pieces(x + y, sep) == pieces(x, sep).drop_last().push(
            pieces(x, sep).last() + pieces(y, sep)[0],
        ) + pieces(y, sep).skip(1),
    decreases x.len(),
{
    if x.contains(sep) {
        let k = choose|k: int| 0 <= k < x.len() && x[k] == sep;
        lemma_first_exists(x, sep, k);
        let at = choose|at: int| first_at(x, sep, at);
        let s = x + y;
        assert forall|i: int| 0 <= i < at implies s[i] != sep by {
            assert(s[i] == x[i]);
        }
        assert(s[at] == sep);
        lemma_split_at_first(s, sep, at);
        lemma_split_at_first(x, sep, at);
        let rest = x.skip(at + 1);
        assert(s.take(at) =~= x.take(at));
        assert(s.skip(at + 1) =~= rest + y);
        lemma_pieces_concat(rest, y, sep);
        lemma_some_piece(rest, sep);
        let left = pieces(s, sep);
        let right = pieces(x, sep).drop_last().push(pieces(x, sep).last() + pieces(y, sep)[0])
            + pieces(y, sep).skip(1);
        assert(left =~= right);
    } else if y.contains(sep) {
        let k = choose|k: int| 0 <= k < y.len() && y[k] == sep;
        lemma_first_exists(y, sep, k);
        let at = choose|at: int| first_at(y, sep, at);
        lemma_split_at_first(y, sep, at);
        let head = x + y.take(at);
        assert forall|i: int| 0 <= i < head.len() implies head[i] != sep by {
            if i < x.len() {
                assert(head[i] == x[i]);
            } else {
                assert(head[i] == y[i - x.len()]);
            }
        }
        lemma_first_piece(head, sep, y.skip(at + 1));
        assert(head + seq![sep] + y.skip(at + 1) =~= x + y);
        lemma_no_separator(x, sep);
        assert(pieces(x + y, sep) =~= pieces(x, sep).drop_last().push(
            pieces(x, sep).last() + pieces(y, sep)[0],
        ) + pieces(y, sep).skip(1));
    } else {
        let s = x + y;
        assert forall|i: int| 0 <= i < s.len() implies s[i] != sep by {
            if i < x.len() {
                assert(s[i] == x[i]);
            } else {
                assert(s[i] == y[i - x.len()]);
            }
        }
        lemma_no_separator(s, sep);
        lemma_no_separator(x, sep);
        lemma_no_separator(y, sep);
        assert(pieces(s, sep) =~= pieces(x, sep).drop_last().push(
            pieces(x, sep).last() + pieces(y, sep)[0],
        ) + pieces(y, sep).skip(1));
    }
}

/// A line more at the end of a text of whole lines
pub proof fn lemma_line_more(text: Seq<char>, line: Seq<char>)
    requires
        pieces(text, '\n').last().len() == 0,
        !line.contains('\n'),
        line.len() == 0 || line.last() != '\r',
    ensures
        pieces(text + line + seq!['\n'], '\n').last().len() == 0,
        lines_of(text + line + seq!['\n']) == lines_of(text).push(line),
{
    let end = Seq::<char>::empty();
    lemma_first_piece(line, '\n', end);
    lemma_no_separator(end, '\n');
    lemma_some_piece(text, '\n');
    let y = line + seq!['\n'];
    assert(line + seq!['\n'] + end =~= y);
    assert(pieces(y, '\n') =~= seq![line, end]);
    lemma_pieces_concat(text, y, '\n');
    assert(text + y =~= text + line + seq!['\n']);
    let whole = pieces(text + line + seq!['\n'], '\n');
    assert(pieces(text, '\n').last() + line =~= line);
    assert(whole =~= pieces(text, '\n').drop_last().push(line).push(end));
    assert(lines_of(text + line + seq!['\n']) =~= lines_of(text).push(line));
}

/// Writing a number down and reading it gives it back.
pub proof fn digits_read_back(n: nat, base: nat)
    requires
        2 <= base <= 16,
    ensures
        digits(n, base).len() > 0,
        digits_value(digits(n, base), base) == Some(n),
        forall|i: int|
            0 <= i < digits(n, base).len() ==> ('0' <= #[trigger] digits(n, base)[i] <= '9' || 'a'
                <= digits(n, base)[i] <= 'f'),
    decreases n,
{
    assert forall|d: nat| d < base implies digit_value(#[trigger] digit(d), base) == Some(d) && ('0'
        <= digit(d) <= '9' || 'a' <= digit(d) <= 'f') by {}
    if n < base {
        let s = digits(n, base);
        assert(s.drop_last() =~= Seq::<char>::empty());
        assert(digits_value(s.drop_last(), base) == Some(0nat));
        assert(0nat * base + n == n);
    } else {
        assert(n / base < n) by (nonlinear_arith)
            requires
                n >= base,
                base >= 2,
        ;
        digits_read_back(n / base, base);
        let s = digits(n, base);
        assert(s.drop_last() =~= digits(n / base, base));
        vstd::arithmetic::div_mod::lemma_fundamental_div_mod(n as int, base as int);
        assert((n / base) * base == base * (n / base)) by (nonlinear_arith);
        vstd::arithmetic::div_mod::lemma_mod_bound(n as int, base as int);
    }
}

/// What is trimmed is what stands between the spaces at both ends.
pub proof fn only_spaces_are_trimmed(a: Seq<char>, s: Seq<char>, b: Seq<char>)
    requires
        forall|i: int| 0 <= i < a.len() ==> is_space(#[trigger] a[i]),
        forall|i: int| 0 <= i < b.len() ==> is_space(#[trigger] b[i]),
        s.len() > 0,
        !is_space(s[0]),
        !is_space(s.last()),
    ensures
        trimmed(a + s + b) == s,
    decreases a.len() + b.len(),
{
    let whole = a + s + b;
    lemma_trimmed(whole);
    if a.len() > 0 {
        assert(whole[0] == a[0]);
        assert(is_space(a[0]));
        assert(whole.skip(1) =~= a.skip(1) + s + b);
        assert forall|i: int| 0 <= i < a.skip(1).len() implies is_space(#[trigger] a.skip(1)[i]) by {
            assert(a.skip(1)[i] == a[i + 1]);
        }
        only_spaces_are_trimmed(a.skip(1), s, b);
    } else if b.len() > 0 {
        assert(whole[0] == s[0]);
        assert(whole.last() == b.last());
        assert(is_space(b[b.len() - 1]));
        assert(whole.drop_last() =~= a + s + b.drop_last());
        only_spaces_are_trimmed(a, s, b.drop_last());
    } else {
        assert(whole =~= s);
        lemma_trimmed(s);
    }
}

/// A text is split at the first separator: what is before it holds none.
pub proof fn a_text_is_split_at_the_first(a: Seq<char>, sep: char, b: Seq<char>)
    requires
        !a.contains(sep),
    ensures
        split_at_first(a + seq![sep] + b, sep) == Some((a, b)),
        split_at_first(a, sep) is None,
{
    let s = a + seq![sep] + b;
    let at = a.len() as int;
    assert(s[at] == sep);
    assert forall|i: int| 0 <= i < at implies s[i] != sep by {
        assert(a.contains(a[i]));
    }
    lemma_split_at_first(s, sep, at);
    assert(s.take(at) =~= a);
    assert(s.skip(at + 1) =~= b);
}

/// A number that was written is the one that is read, where it is not larger
/// than it may be.
pub proof fn a_written_number_is_read(n: nat, base: nat, max: nat)
    requires
        2 <= base <= 16,
    ensures
        unsigned_value(digits(n, base), base, max) == (if n <= max {
            Some(n)
        } else {
            None
        }),
{
    digits_read_back(n, base);
    let d = digits(n, base);
    assert('0' <= d[0] <= '9' || 'a' <= d[0] <= 'f');
}

} // verus!
