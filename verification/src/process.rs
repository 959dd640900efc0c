//! What a process that a guest starts is given: its environment, its program
//! and its place in the run. Guests see virtual pids, so pids in output and
//! in temp-file names repeat from run to run.

use vstd::prelude::*;
use crate::bytes::{cut, starts_with};
use crate::environ;
use crate::environ::{push_assignments, INSERT_VAR, SEED_VAR};
use crate::fields;
use crate::shared::{ALLOW_VAR, EXTERNAL_VAR, HOST_ROOT_VAR, PROC_VAR, SHARED_VAR};
use crate::text;
use crate::text::{chars_of, push_decimal, split, string_of};

verus! {

/// Kernel thread ids are system-wide and differ from run to run. A scheduled
/// thread's is its index in the run.
pub const VTID_BASE: u64 = 1_000_000_000;

/// The id of a scheduled thread
pub fn thread_id(index: u32) -> (r: u64)
    ensures
        r == VTID_BASE + index,
{
    VTID_BASE + index as u64
}

/// Where a process searches for programs when it does not say
pub const DEFAULT_PATH: &'static str = "/usr/bin:/bin";

/// What a child needs in its environment to join the run, captured at
/// startup because the guest may rewrite or clear its own environment
pub struct Inherit {
    pub dylib: String,
    pub shared: String,
    pub seed: String,
    pub external: String,
    pub host_root: String,
    pub allow: String,
}

/// `KEY=` begins the entry.
pub open spec fn sets_variable(entry: Seq<u8>, name: Seq<char>) -> bool {
    (environ::encoded(name) + seq![0x3du8]).is_prefix_of(entry)
}

/// The entry sets a variable of ours.
pub open spec fn is_own(entry: Seq<u8>) -> bool {
    sets_variable(entry, HOST_ROOT_VAR@) || sets_variable(entry, ALLOW_VAR@) || sets_variable(
        entry,
        INSERT_VAR@,
    ) || sets_variable(entry, SHARED_VAR@) || sets_variable(entry, PROC_VAR@) || sets_variable(
        entry,
        EXTERNAL_VAR@,
    ) || sets_variable(entry, SEED_VAR@)
}

/// The first `n` entries without ours
pub open spec fn without_own(entries: Seq<Seq<u8>>, n: int) -> Seq<Seq<u8>>
    decreases n,
{
    if n <= 0 {
        Seq::empty()
    } else {
        let before = without_own(entries, n - 1);
        if is_own(entries[n - 1]) {
            before
        } else {
            before.push(entries[n - 1])
        }
    }
}

fn sets(entry: &[u8], name: &str) -> (r: bool)
    ensures
        r == sets_variable(entry@, name@),
{
    let key = name.as_bytes();
    let ghost want = key@ + seq![0x3du8];
    if !starts_with(entry, key) {
        proof {
            if want.is_prefix_of(entry@) {
                assert(key@ =~= entry@.subrange(0, want.len() as int).subrange(
                    0,
                    key@.len() as int,
                ));
                assert(entry@.subrange(0, key@.len() as int) =~= key@);
            }
        }
        return false;
    }
    let r = key.len() < entry.len() && entry[key.len()] == 0x3d;
    proof {
        if r {
            assert(entry@.subrange(0, want.len() as int) =~= want);
        } else if want.is_prefix_of(entry@) {
            assert(entry@.subrange(0, want.len() as int)[key@.len() as int] == 0x3d);
        }
    }
    r
}

fn own(entry: &[u8]) -> (r: bool)
    ensures
        r == is_own(entry@),
{
    sets(entry, HOST_ROOT_VAR) || sets(entry, ALLOW_VAR) || sets(entry, INSERT_VAR) || sets(
        entry,
        SHARED_VAR,
    ) || sets(entry, PROC_VAR) || sets(entry, EXTERNAL_VAR) || sets(entry, SEED_VAR)
}

/// The guest's environment without our variables. A process outside the run
/// must not inherit them: with its parent's place it would attach as its
/// parent.
pub fn guest_env(entries: &Vec<Vec<u8>>) -> (r: Vec<Vec<u8>>)
    ensures
        environ::held(r@) == without_own(environ::held(entries@), entries@.len() as int),
{
    let ghost e = environ::held(entries@);
    let mut out: Vec<Vec<u8>> = Vec::new();
    assert(environ::held(out@) =~= Seq::empty());
    let mut i: usize = 0;
    while i < entries.len()
        invariant
            i <= entries@.len(),
            e == environ::held(entries@),
            environ::held(out@) == without_own(e, i as int),
        decreases entries@.len() - i,
    {
        assert(e[i as int] == entries@[i as int]@);
        let entry = entries[i].as_slice();
        if !own(entry) {
            let ghost was = environ::held(out@);
            let kept = cut(entry, 0, entry.len());
            out.push(kept);
            assert(kept@ =~= entry@);
            assert(environ::held(out@) =~= was.push(entry@));
        }
        i += 1;
    }
    out
}

/// What makes a child process `index` of the run
pub open spec fn joining(inherit: Option<Inherit>, index: u32) -> fields::Entries {
    let place = seq![(PROC_VAR@, text::decimal(index as nat))];
    match inherit {
        Some(i) => seq![
            (INSERT_VAR@, i.dylib@),
            (SHARED_VAR@, i.shared@),
            (SEED_VAR@, i.seed@),
            (EXTERNAL_VAR@, i.external@),
            (HOST_ROOT_VAR@, i.host_root@),
            (ALLOW_VAR@, i.allow@),
        ] + place,
        None => place,
    }
}

/// The guest's environment for a child of the run, with our variables set
/// for process `index`
pub fn child_env(entries: &Vec<Vec<u8>>, inherit: &Option<Inherit>, index: u32) -> (r: Vec<Vec<u8>>)
    ensures
        ({
            let e = joining(*inherit, index);
            environ::held(r@) == without_own(environ::held(entries@), entries@.len() as int)
                + environ::assignments(e, e.len() as int)
        }),
{
    let mut out = guest_env(entries);
    let mut ours: Vec<(String, String)> = Vec::new();
    match inherit {
        Some(i) => {
            ours.push((INSERT_VAR.to_owned(), i.dylib.as_str().to_owned()));
            ours.push((SHARED_VAR.to_owned(), i.shared.as_str().to_owned()));
            ours.push((SEED_VAR.to_owned(), i.seed.as_str().to_owned()));
            ours.push((EXTERNAL_VAR.to_owned(), i.external.as_str().to_owned()));
            ours.push((HOST_ROOT_VAR.to_owned(), i.host_root.as_str().to_owned()));
            ours.push((ALLOW_VAR.to_owned(), i.allow.as_str().to_owned()));
        },
        None => {},
    }
    let mut n = String::new();
    push_decimal(&mut n, index as u64);
    assert(n@ =~= text::decimal(index as nat));
    ours.push((PROC_VAR.to_owned(), n));
    assert(fields::pairs(ours@) =~= joining(*inherit, index));
    push_assignments(&mut out, &ours);
    out
}

/// No variable of ours in what a guest hands on survives: a child's place in
/// the run is the one it was given.
pub proof fn a_guest_hands_on_no_variable_of_ours(entries: Seq<Seq<u8>>, n: int, i: int)
    requires
        0 <= n <= entries.len(),
        0 <= i < without_own(entries, n).len(),
    ensures
        !is_own(without_own(entries, n)[i]),
        entries.contains(without_own(entries, n)[i]),
    decreases n,
{
    let before = without_own(entries, n - 1);
    if i < before.len() {
        a_guest_hands_on_no_variable_of_ours(entries, n - 1, i);
    } else {
        assert(without_own(entries, n)[i] == entries[n - 1]);
    }
}

/// One place to look for a program
pub open spec fn candidate(dir: Seq<char>, file: Seq<u8>) -> Seq<u8> {
    environ::encoded(if dir.len() == 0 {
        "."@
    } else {
        dir
    }) + seq![0x2fu8] + file
}

/// The places to look for a program, in order
pub open spec fn candidates(path: Option<Seq<char>>, file: Seq<u8>) -> Seq<Seq<u8>> {
    text::pieces(
        match path {
            Some(p) => p,
            None => DEFAULT_PATH@,
        },
        ':',
    ).map_values(|dir: Seq<char>| candidate(dir, file))
}

fn place(dir: &Vec<char>, file: &[u8]) -> (r: Vec<u8>)
    ensures
        r@ == candidate(dir@, file@),
{
    let name: String = if dir.len() == 0 {
        ".".to_owned()
    } else {
        string_of(dir)
    };
    let b = name.as_str().as_bytes();
    let mut out = cut(b, 0, b.len());
    out.push(0x2f);
    let mut f = cut(file, 0, file.len());
    out.append(&mut f);
    assert(out@ =~= candidate(dir@, file@));
    out
}

fn has_slash(file: &[u8]) -> (r: bool)
    ensures
        r == file@.contains(0x2f),
{
    let mut i: usize = 0;
    while i < file.len()
        invariant
            i <= file@.len(),
            forall|k: int| 0 <= k < i ==> file@[k] != 0x2f,
        decreases file@.len() - i,
    {
        if file[i] == 0x2f {
            assert(file@[i as int] == 0x2f);
            return true;
        }
        i += 1;
    }
    false
}

/// Where to look for a program, in order, with the search path the process
/// has. None when the name is a path itself.
pub fn search_path(file: &[u8], path: Option<&str>) -> (r: Option<Vec<Vec<u8>>>)
    ensures
        r is None == file@.contains(0x2f),
        r matches Some(places) ==> environ::held(places@) == candidates(
            match path {
                Some(p) => Some(p@),
                None => None,
            },
            file@,
        ),
{
    if has_slash(file) {
        return None;
    }
    let dirs = match path {
        Some(p) => split(&chars_of(p), ':'),
        None => split(&chars_of(DEFAULT_PATH), ':'),
    };
    let ghost want = candidates(
        match path {
            Some(p) => Some(p@),
            None => None,
        },
        file@,
    );
    let mut out: Vec<Vec<u8>> = Vec::new();
    let mut i: usize = 0;
    while i < dirs.len()
        invariant
            i <= dirs@.len(),
            want.len() == dirs@.len(),
            forall|k: int| 0 <= k < want.len() ==> #[trigger] want[k] == candidate(dirs@[k]@, file@),
            environ::held(out@) =~= want.take(i as int),
        decreases dirs@.len() - i,
    {
        let ghost was = environ::held(out@);
        let p = place(&dirs[i], file);
        out.push(p);
        assert(environ::held(out@) =~= was.push(p@));
        assert(want.take(i + 1) =~= want.take(i as int).push(want[i as int]));
        i += 1;
    }
    assert(want.take(i as int) =~= want);
    Some(out)
}

/// Whether `address` is in the range of `len` bytes from `start` on, as the
/// code of the system's libraries or of its allocator is
pub fn in_range(address: u64, start: u64, len: u64) -> (r: bool)
    ensures
        r == (start <= address < start + len),
{
    address >= start && address - start < len
}

/// A program is looked for in each directory of the path in turn: what stands
/// before a colon, then the rest; an empty one is the working directory, and
/// without a path there are two.
pub proof fn each_directory_is_searched(a: Seq<char>, b: Seq<char>, file: Seq<u8>)
    requires
        !a.contains(':'),
    ensures
        candidates(Some(a), file) == seq![
            environ::encoded(
                if a.len() == 0 {
                    "."@
                } else {
                    a
                },
            ) + seq![0x2fu8] + file,
        ],
        candidates(Some(a + seq![':'] + b), file) == candidates(Some(a), file) + candidates(
            Some(b),
            file,
        ),
        candidates(None, file) == candidates(Some("/usr/bin:/bin"@), file),
{
    text::lemma_no_separator(a, ':');
    text::lemma_first_piece(a, ':', b);
    assert(candidates(Some(a), file) =~= seq![candidate(a, file)]);
    assert(candidates(Some(a + seq![':'] + b), file) =~= candidates(Some(a), file) + candidates(
        Some(b),
        file,
    ));
}

/// What a guest sets for its child is handed on, but for the supervisor's own
/// variables.
pub proof fn what_a_guest_sets_is_handed_on(entries: Seq<Seq<u8>>, n: int, i: int)
    requires
        0 <= i < n <= entries.len(),
        !is_own(entries[i]),
    ensures
        without_own(entries, n).contains(entries[i]),
    decreases n,
{
    let all = without_own(entries, n);
    if i < n - 1 {
        what_a_guest_sets_is_handed_on(entries, n - 1, i);
        let before = without_own(entries, n - 1);
        let k = choose|k: int| 0 <= k < before.len() && before[k] == entries[i];
        assert(all[k] == entries[i]);
    } else {
        assert(all[all.len() - 1] == entries[i]);
    }
}

} // verus!
