//! Where rewritten copies of programs are kept, and what they are called.

use vstd::prelude::*;
use crate::environ;
use crate::hash;
use crate::rewrite::Options;
use crate::text;
use crate::text::{chars_of, push_decimal, starts_with, string_of};
use crate::words;
use crate::words::{push_padded, split_once_last};

verus! {

/// What stands between a program's name and how it was rewritten, in the
/// name of the rewritten file
pub const CACHE_TAG: &'static str = ".rw4-";

/// The site table of a rewritten file
pub open spec fn sites_file(rewritten: Seq<char>) -> Seq<char> {
    rewritten + ".sites"@
}

/// Where the site table of a rewritten file is kept
pub fn sites_path(rewritten: &str) -> (r: String)
    ensures
        r@ == sites_file(rewritten@),
{
    let mut out = rewritten.to_owned();
    out.append(".sites");
    out
}

/// Where a debugger looks for a program's symbols
pub fn with_dsym_suffix(path: &str) -> (r: String)
    ensures
        r@ == path@ + ".dSYM"@,
{
    let mut out = path.to_owned();
    out.append(".dSYM");
    out
}

/// The program lives where packages and the system install things.
pub open spec fn is_installed(path: Seq<char>) -> bool {
    "/opt/"@.is_prefix_of(path) || "/usr/"@.is_prefix_of(path) || "/bin/"@.is_prefix_of(path)
        || "/sbin/"@.is_prefix_of(path) || "/Applications/"@.is_prefix_of(path)
        || "/Library/"@.is_prefix_of(path)
}

/// The name of an installed program's own directory in the cache: after
/// its full path
pub open spec fn directory_of(path: Seq<char>) -> Seq<char> {
    words::padded(hash::folded(hash::BASIS, environ::encoded(path)) as nat, 16, 16)
}

/// Where rewritten copies of the program at `path`, resolved, go: next to
/// it (None), unless it lives where packages and the system install things.
/// Those copies go to a directory of this name in the cache.
pub fn cache_dir_for(path: &str) -> (r: Option<String>)
    ensures
        match r {
            Some(d) => is_installed(path@) && d@ == directory_of(path@),
            None => !is_installed(path@),
        },
{
    let chars = chars_of(path);
    let installed: bool = starts_with(&chars, "/opt/") || starts_with(&chars, "/usr/")
        || starts_with(&chars, "/bin/") || starts_with(&chars, "/sbin/") || starts_with(
        &chars,
        "/Applications/",
    ) || starts_with(&chars, "/Library/");
    if !installed {
        return None;
    }
    let h: u64 = hash::fold(hash::BASIS, path.as_bytes());
    let mut out = String::new();
    push_padded(&mut out, h, 16, 16);
    assert(out@ =~= directory_of(path@));
    Some(out)
}

fn push_wide(out: &mut String, n: u128)
    ensures
        final(out)@ == old(out)@ + text::decimal(n as nat),
    decreases n,
{
    if n >= 10 {
        push_wide(out, n / 10);
    }
    push_decimal(out, (n % 10) as u64);
    proof {
        let d = n as nat;
        reveal_with_fuel(text::digits, 2);
        assert(out@ =~= old(out)@ + text::decimal(d));
    }
}

/// How a program was rewritten: by seed, rate, and which state of it
pub open spec fn version(
    seed: u64,
    rate: (u32, u32),
    modified_ns: u128,
    size: u64,
) -> Seq<char> {
    text::decimal(seed as nat) + "-"@ + text::decimal(rate.0 as nat) + "of"@ + text::decimal(
        rate.1 as nat,
    ) + "-"@ + text::decimal(modified_ns as nat) + "-"@ + text::decimal(size as nat)
}

/// The name of a rewritten file
pub open spec fn cached(
    file: Seq<char>,
    seed: u64,
    rate: (u32, u32),
    modified_ns: u128,
    size: u64,
) -> Seq<char> {
    file + CACHE_TAG@ + version(seed, rate, modified_ns, size)
}

/// The name of the cache file of a program, keyed by options and the
/// program's modification time and size. Seconds alone would reuse the
/// rewrite of a program rebuilt within one.
pub fn cache_name(file: &str, opts: &Options, modified_ns: u128, size: u64) -> (r: String)
    ensures
        r@ == cached(file@, opts.seed, opts.mem_rate, modified_ns, size),
{
    let mut out = file.to_owned();
    out.append(CACHE_TAG);
    push_decimal(&mut out, opts.seed);
    out.append("-");
    push_decimal(&mut out, opts.mem_rate.0 as u64);
    out.append("of");
    push_decimal(&mut out, opts.mem_rate.1 as u64);
    out.append("-");
    push_wide(&mut out, modified_ns);
    out.append("-");
    push_decimal(&mut out, size);
    assert(out@ =~= cached(file@, opts.seed, opts.mem_rate, modified_ns, size));
    out
}

/// A name for the file while it is being made: another run may be making
/// the same one
pub fn temporary_name(file: &str, pid: u32, number: u32) -> (r: String)
    ensures
        r@ == "."@ + file@ + ".rw-tmp-"@ + text::decimal(pid as nat) + "-"@ + text::decimal(
            number as nat,
        ),
{
    let mut out = ".".to_owned();
    out.append(file);
    out.append(".rw-tmp-");
    push_decimal(&mut out, pid as u64);
    out.append("-");
    push_decimal(&mut out, number as u64);
    out
}

/// The program that a rewritten file is of
pub open spec fn program_in(file: Seq<char>) -> Seq<char> {
    match words::split_at_last(file, CACHE_TAG@) {
        Some((program, _)) => program,
        None => file,
    }
}

/// The program that a rewritten file is of
pub fn program_of(file: &str) -> (r: String)
    ensures
        r@ == program_in(file@),
{
    match split_once_last(&chars_of(file), CACHE_TAG) {
        Some((program, _)) => string_of(&program),
        None => file.to_owned(),
    }
}

/// No character of the text is a dot.
pub open spec fn dotless(s: Seq<char>) -> bool {
    forall|i: int| 0 <= i < s.len() ==> #[trigger] s[i] != '.'
}

proof fn lemma_decimal_dotless(n: nat)
    ensures
        dotless(text::decimal(n)),
    decreases n,
{
    if n >= 10 {
        lemma_decimal_dotless(n / 10);
    }
    assert forall|i: int| 0 <= i < text::decimal(n).len() implies #[trigger] text::decimal(n)[i]
        != '.' by {
        if n >= 10 {
            let before = text::decimal(n / 10);
            if i < before.len() {
                assert(text::decimal(n)[i] == before[i]);
            }
        }
    }
}

proof fn lemma_last_upto(s: Seq<char>, p: Seq<char>, at: int, from: int)
    requires
        0 <= at <= from,
        words::occurs(s, p, at),
        forall|k: int| at < k <= from ==> !(#[trigger] words::occurs(s, p, k)),
    ensures
        words::last_upto(s, p, from) == Some(at),
    decreases from - at,
{
    if from > at {
        assert(!words::occurs(s, p, from));
        lemma_last_upto(s, p, at, from - 1);
    }
}

/// A rewritten file names the program it was made from.
pub proof fn a_cached_file_names_its_program(
    file: Seq<char>,
    seed: u64,
    rate: (u32, u32),
    modified_ns: u128,
    size: u64,
)
    ensures
        program_in(cached(file, seed, rate, modified_ns, size)) == file,
{
    let tag = CACHE_TAG@;
    let v = version(seed, rate, modified_ns, size);
    let s = file + tag + v;
    reveal_strlit(".rw4-");
    reveal_strlit("-");
    reveal_strlit("of");
    lemma_decimal_dotless(seed as nat);
    lemma_decimal_dotless(rate.0 as nat);
    lemma_decimal_dotless(rate.1 as nat);
    lemma_decimal_dotless(modified_ns as nat);
    lemma_decimal_dotless(size as nat);
    assert(dotless(v));
    let n = file.len() as int;
    assert(s.subrange(n, n + tag.len()) =~= tag);
    assert forall|k: int| n < k <= s.len() implies !(#[trigger] words::occurs(s, tag, k)) by {
        if words::occurs(s, tag, k) {
            assert(s.subrange(k, k + tag.len())[0] == tag[0]);
            assert(s[k] == '.');
            if k < n + tag.len() {
                assert(s[k] == tag[k - n]);
            } else {
                assert(s[k] == v[k - n - tag.len()]);
            }
        }
    }
    lemma_last_upto(s, tag, n, s.len() as int);
    assert(s.take(n) =~= file);
}

} // verus!
