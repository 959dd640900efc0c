//! Holds a guest's path names to its virtual host's directory. This is a
//! guard against configurations that would let hosts share files by
//! accident (an absolute path into another host's directory, a
//! `../other-host/data`), not a sandbox: paths are normalized lexically
//! and symlinks are not resolved, so whoever wants out gets out.
//!
//! A path may also be under a system location every program reads through
//! libSystem, or under one of the run file's `allow:` entries. Program
//! images are not checked: `execve` and `posix_spawn` name binaries that
//! live outside every host's directory.

use vstd::prelude::*;
use crate::bytes::{cut, same, starts_with};
use crate::environ;
use crate::macho;
use crate::text;
use crate::text::{chars_of, part, split, string_of};

pub mod laws;

verus! {

pub const SLASH: u8 = 0x2f;

pub const DOT: u8 = 0x2e;

/// How many refusals are logged
pub const MAX_LOGGED: u32 = 20;

/// What follows `prefix`
pub open spec fn after(s: Seq<u8>, prefix: Seq<u8>) -> Option<Seq<u8>> {
    if prefix.is_prefix_of(s) {
        Some(s.skip(prefix.len() as int))
    } else {
        None
    }
}

/// The path is the directory, or below it.
pub open spec fn is_under(path: Seq<u8>, dir: Seq<u8>) -> bool {
    dir == seq![SLASH] || (after(path, dir) matches Some(rest) && (rest.len() == 0 || rest[0]
        == SLASH))
}

pub fn under(path: &[u8], dir: &[u8]) -> (r: bool)
    ensures
        r == is_under(path@, dir@),
{
    if dir.len() == 1 && dir[0] == SLASH {
        assert(dir@ =~= seq![SLASH]);
        return true;
    }
    assert(dir@ != seq![SLASH]) by {
        if dir@ == seq![SLASH] {
            assert(dir@.len() == 1 && dir@[0] == SLASH);
        }
    }
    if !starts_with(path, dir) {
        return false;
    }
    let n: usize = dir.len();
    n == path.len() || path[n] == SLASH
}

/// The path is below one of those that are links into `/private`.
pub open spec fn is_aliased(rest: Seq<u8>) -> bool {
    is_under(rest, environ::encoded("/tmp"@)) || is_under(rest, environ::encoded("/var"@))
        || is_under(rest, environ::encoded("/etc"@))
}

/// The form of a path in which it is compared
pub open spec fn public(path: Seq<u8>) -> Seq<u8> {
    match after(path, environ::encoded("/private"@)) {
        Some(rest) => if is_aliased(rest) {
            rest
        } else {
            path
        },
        None => path,
    }
}

/// `/tmp`, `/var` and `/etc` are symlinks into `/private`; compare one
/// form.
pub fn unprivate(path: &[u8]) -> (r: &[u8])
    ensures
        r@ == public(path@),
{
    let prefix = "/private".as_bytes();
    if starts_with(path, prefix) {
        let rest = vstd::slice::slice_subrange(path, prefix.len(), path.len());
        assert(rest@ =~= path@.skip(prefix@.len() as int));
        if under(rest, "/tmp".as_bytes()) || under(rest, "/var".as_bytes()) || under(
            rest,
            "/etc".as_bytes(),
        ) {
            return rest;
        }
    }
    path
}

/// How many bytes stand before the first slash
pub open spec fn part_len(s: Seq<u8>) -> nat
    decreases s.len(),
{
    if s.len() == 0 || s[0] == SLASH {
        0
    } else {
        1 + part_len(s.skip(1))
    }
}

pub proof fn lemma_part_len(s: Seq<u8>)
    ensures
        part_len(s) <= s.len(),
        forall|i: int| 0 <= i < part_len(s) ==> #[trigger] s[i] != SLASH,
        part_len(s) < s.len() ==> s[part_len(s) as int] == SLASH,
    decreases s.len(),
{
    if s.len() > 0 && s[0] != SLASH {
        lemma_part_len(s.skip(1));
        assert forall|i: int| 0 <= i < part_len(s) implies #[trigger] s[i] != SLASH by {
            if i > 0 {
                assert(s[i] == s.skip(1)[i - 1]);
            }
        }
    }
}

/// One more part of a path: nothing and `.` stay, `..` goes up.
pub open spec fn stepped(parts: Seq<Seq<u8>>, part: Seq<u8>) -> Seq<Seq<u8>> {
    if part.len() == 0 || part == seq![DOT] {
        parts
    } else if part == seq![DOT, DOT] {
        if parts.len() > 0 {
            parts.drop_last()
        } else {
            parts
        }
    } else {
        parts.push(part)
    }
}

/// The parts of a path, from those of where it starts
pub open spec fn walked(parts: Seq<Seq<u8>>, path: Seq<u8>) -> Seq<Seq<u8>>
    decreases path.len(),
{
    proof {
        lemma_part_len(path);
    }
    let n = part_len(path) as int;
    let here = stepped(parts, path.take(n));
    if n >= path.len() {
        here
    } else {
        walked(here, path.skip(n + 1))
    }
}

/// Parts with a slash before each
pub open spec fn rendered(parts: Seq<Seq<u8>>) -> Seq<u8>
    decreases parts.len(),
{
    if parts.len() == 0 {
        Seq::empty()
    } else {
        rendered(parts.drop_last()) + seq![SLASH] + parts.last()
    }
}

/// The path of these parts
pub open spec fn path_of(parts: Seq<Seq<u8>>) -> Seq<u8> {
    if parts.len() == 0 {
        seq![SLASH]
    } else {
        rendered(parts)
    }
}

/// The parts a path comes to
pub open spec fn parts_of(path: Seq<u8>, cwd: Seq<u8>) -> Seq<Seq<u8>> {
    if path.len() > 0 && path[0] == SLASH {
        walked(Seq::empty(), path)
    } else {
        walked(walked(Seq::empty(), cwd), path)
    }
}

/// The path, absolute and without `.`, `..` or doubled slashes
pub open spec fn normalized(path: Seq<u8>, cwd: Seq<u8>) -> Seq<u8> {
    path_of(parts_of(path, cwd))
}

fn walk(parts: &mut Vec<Vec<u8>>, path: &[u8])
    ensures
        environ::held(final(parts)@) == walked(environ::held(old(parts)@), path@),
{
    let n: usize = path.len();
    let mut at: usize = 0;
    let ghost goal = walked(environ::held(parts@), path@);
    assert(path@.skip(0) =~= path@);
    loop
        invariant
            at <= n == path@.len(),
            goal == walked(environ::held(old(parts)@), path@),
            walked(environ::held(parts@), path@.skip(at as int)) == goal,
        decreases n - at,
    {
        let ghost rest = path@.skip(at as int);
        let ghost before = environ::held(parts@);
        let mut end: usize = at;
        proof {
            lemma_part_len(rest);
            assert(rest.skip(0) =~= rest);
        }
        while end < n && path[end] != SLASH
            invariant
                at <= end <= n == path@.len(),
                rest == path@.skip(at as int),
                part_len(rest) == (end - at) + part_len(rest.skip(end - at)),
            decreases n - end,
        {
            assert(rest.skip(end - at)[0] == path@[end as int]);
            assert(rest.skip(end - at).skip(1) =~= rest.skip(end - at + 1));
            end += 1;
        }
        assert(end < n ==> rest.skip(end - at)[0] == path@[end as int]);
        let piece = cut(path, at, end);
        assert(piece@ =~= rest.take(end - at));
        let plain: bool = piece.len() > 0 && !(piece.len() == 1 && piece[0] == DOT);
        let up: bool = piece.len() == 2 && piece[0] == DOT && piece[1] == DOT;
        assert(up == (piece@ == seq![DOT, DOT])) by {
            if up {
                assert(piece@ =~= seq![DOT, DOT]);
            }
        }
        assert(plain == !(piece@.len() == 0 || piece@ == seq![DOT])) by {
            if piece@.len() == 1 && piece@[0] == DOT {
                assert(piece@ =~= seq![DOT]);
            }
        }
        if up {
            if parts.len() > 0 {
                parts.pop();
                assert(environ::held(parts@) =~= before.drop_last());
            }
        } else if plain {
            parts.push(piece);
            assert(environ::held(parts@) =~= before.push(piece@));
        }
        assert(environ::held(parts@) == stepped(before, piece@));
        if end >= n {
            return;
        }
        assert(rest.skip(end - at + 1) =~= path@.skip(end + 1));
        at = end + 1;
    }
}

/// Absolute and without `.`, `..` or doubled slashes. Lexical only.
pub fn normalize(path: &[u8], cwd: &[u8]) -> (r: Vec<u8>)
    ensures
        r@ == normalized(path@, cwd@),
{
    let mut parts: Vec<Vec<u8>> = Vec::new();
    assert(environ::held(parts@) =~= Seq::empty());
    if !(path.len() > 0 && path[0] == SLASH) {
        walk(&mut parts, cwd);
    }
    walk(&mut parts, path);
    let ghost all = environ::held(parts@);
    let mut out: Vec<u8> = Vec::new();
    let mut i: usize = 0;
    assert(all.take(0) =~= Seq::empty());
    while i < parts.len()
        invariant
            i <= parts@.len(),
            all == environ::held(parts@),
            out@ == rendered(all.take(i as int)),
        decreases parts@.len() - i,
    {
        let ghost was = out@;
        out.push(SLASH);
        let mut piece = cut(parts[i].as_slice(), 0, parts[i].len());
        assert(piece@ =~= all[i as int]);
        out.append(&mut piece);
        assert(all.take(i + 1).drop_last() =~= all.take(i as int));
        assert(out@ =~= was + seq![SLASH] + all[i as int]);
        i += 1;
    }
    assert(all.take(i as int) =~= all);
    if parts.len() == 0 {
        out.push(SLASH);
        assert(out@ =~= seq![SLASH]);
    }
    out
}

/// A part that stands for itself
pub open spec fn is_plain(part: Seq<u8>) -> bool {
    &&& part.len() > 0
    &&& part != seq![DOT]
    &&& part != seq![DOT, DOT]
    &&& forall|i: int| 0 <= i < part.len() ==> #[trigger] part[i] != SLASH
}

pub open spec fn all_plain(parts: Seq<Seq<u8>>) -> bool {
    forall|i: int| 0 <= i < parts.len() ==> is_plain(#[trigger] parts[i])
}

proof fn lemma_walked_plain(parts: Seq<Seq<u8>>, path: Seq<u8>)
    requires
        all_plain(parts),
    ensures
        all_plain(walked(parts, path)),
    decreases path.len(),
{
    lemma_part_len(path);
    let n = part_len(path) as int;
    let part = path.take(n);
    let here = stepped(parts, part);
    assert(all_plain(here)) by {
        assert forall|i: int| 0 <= i < part.len() implies #[trigger] part[i] != SLASH by {
            assert(part[i] == path[i]);
        }
    }
    if n < path.len() {
        lemma_walked_plain(here, path.skip(n + 1));
    }
}

/// Walking a path that ends in a slash and one more part is one more step.
pub(crate) proof fn lemma_walked_more(parts: Seq<Seq<u8>>, path: Seq<u8>, part: Seq<u8>)
    requires
        forall|i: int| 0 <= i < part.len() ==> #[trigger] part[i] != SLASH,
    ensures
        walked(parts, path + seq![SLASH] + part) == stepped(walked(parts, path), part),
    decreases path.len(),
{
    let whole = path + seq![SLASH] + part;
    lemma_part_len(path);
    let n = part_len(path) as int;
    lemma_part_len_prefix(path, part);
    let here = stepped(parts, path.take(n));
    assert(whole.take(n) =~= path.take(n));
    if n < path.len() {
        assert(whole.skip(n + 1) =~= path.skip(n + 1) + seq![SLASH] + part);
        lemma_walked_more(here, path.skip(n + 1), part);
    } else {
        assert(whole.skip(n + 1) =~= part);
        lemma_whole_part(part);
        assert(part.take(part.len() as int) =~= part);
        assert(walked(here, part) == stepped(here, part));
        assert(path.take(n) =~= path);
    }
}

pub(crate) proof fn lemma_part_len_prefix(path: Seq<u8>, part: Seq<u8>)
    ensures
        part_len(path + seq![SLASH] + part) == part_len(path),
    decreases path.len(),
{
    let whole = path + seq![SLASH] + part;
    if path.len() > 0 && path[0] != SLASH {
        assert(whole.skip(1) =~= path.skip(1) + seq![SLASH] + part);
        lemma_part_len_prefix(path.skip(1), part);
    }
}

proof fn lemma_whole_part(part: Seq<u8>)
    requires
        forall|i: int| 0 <= i < part.len() ==> #[trigger] part[i] != SLASH,
    ensures
        part_len(part) == part.len(),
    decreases part.len(),
{
    if part.len() > 0 {
        let rest = part.skip(1);
        assert forall|i: int| 0 <= i < rest.len() implies #[trigger] rest[i] != SLASH by {
            assert(rest[i] == part[i + 1]);
        }
        lemma_whole_part(rest);
    }
}

proof fn lemma_walked_rendered(parts: Seq<Seq<u8>>)
    requires
        all_plain(parts),
    ensures
        walked(Seq::empty(), rendered(parts)) == parts,
    decreases parts.len(),
{
    if parts.len() == 0 {
        assert(rendered(parts).take(0) =~= Seq::empty());
        assert(parts =~= Seq::empty());
    } else {
        let before = parts.drop_last();
        assert forall|i: int| 0 <= i < before.len() implies is_plain(#[trigger] before[i]) by {
            assert(before[i] == parts[i]);
        }
        lemma_walked_rendered(before);
        assert(is_plain(parts[parts.len() - 1]));
        lemma_walked_more(Seq::empty(), rendered(before), parts.last());
        assert(before.push(parts.last()) =~= parts);
    }
}

/// The parts of a normal path are plain, so nothing of it goes up or stays
/// where it is, whatever was given.
pub proof fn a_normal_path_does_not_go_up(path: Seq<u8>, cwd: Seq<u8>)
    ensures
        all_plain(parts_of(path, cwd)),
        normalized(path, cwd).len() > 0,
        normalized(path, cwd)[0] == SLASH,
{
    lemma_walked_plain(Seq::empty(), cwd);
    lemma_walked_plain(Seq::empty(), path);
    lemma_walked_plain(walked(Seq::empty(), cwd), path);
    lemma_rendered_starts(parts_of(path, cwd));
}

proof fn lemma_rendered_starts(parts: Seq<Seq<u8>>)
    ensures
        parts.len() > 0 ==> rendered(parts).len() > 0 && rendered(parts)[0] == SLASH,
    decreases parts.len(),
{
    if parts.len() > 0 {
        let before = parts.drop_last();
        lemma_rendered_starts(before);
        assert(before.len() == 0 ==> rendered(before).len() == 0);
    }
}

/// A path that is normal stays as it is.
pub proof fn a_normal_path_stays_as_it_is(path: Seq<u8>, cwd: Seq<u8>, elsewhere: Seq<u8>)
    ensures
        normalized(normalized(path, cwd), elsewhere) == normalized(path, cwd),
{
    a_normal_path_does_not_go_up(path, cwd);
    let parts = parts_of(path, cwd);
    let p = normalized(path, cwd);
    if parts.len() == 0 {
        lemma_part_len(p);
        assert(p.skip(1) =~= Seq::<u8>::empty());
        assert(p.take(0) =~= Seq::<u8>::empty());
        assert(p.skip(1).take(0) =~= Seq::<u8>::empty());
        reveal_with_fuel(walked, 3);
        assert(walked(Seq::empty(), p) =~= Seq::empty());
    } else {
        lemma_walked_rendered(parts);
    }
}

/// Read by every program through libSystem (time zones, locales, the
/// resolver, devices), or where toolchains and package managers install
/// what guests link and load. `/var/folders` holds the per-user caches
/// libSystem itself writes.
pub open spec fn system() -> Seq<Seq<u8>> {
    seq![
        environ::encoded("/usr"@),
        environ::encoded("/System"@),
        environ::encoded("/Library"@),
        environ::encoded("/bin"@),
        environ::encoded("/sbin"@),
        environ::encoded("/dev"@),
        environ::encoded("/etc"@),
        environ::encoded("/var/db"@),
        environ::encoded("/var/run"@),
        environ::encoded("/var/folders"@),
        environ::encoded("/opt/homebrew"@),
        environ::encoded("/Applications/Xcode"@),
    ]
}

fn bytes_of(s: &str) -> (r: Vec<u8>)
    ensures
        r@ == environ::encoded(s@),
{
    vstd::slice::slice_to_vec(s.as_bytes())
}

fn system_dirs() -> (r: Vec<Vec<u8>>)
    ensures
        environ::held(r@) == system(),
{
    let mut out: Vec<Vec<u8>> = Vec::new();
    out.push(bytes_of("/usr"));
    out.push(bytes_of("/System"));
    out.push(bytes_of("/Library"));
    out.push(bytes_of("/bin"));
    out.push(bytes_of("/sbin"));
    out.push(bytes_of("/dev"));
    out.push(bytes_of("/etc"));
    out.push(bytes_of("/var/db"));
    out.push(bytes_of("/var/run"));
    out.push(bytes_of("/var/folders"));
    out.push(bytes_of("/opt/homebrew"));
    out.push(bytes_of("/Applications/Xcode"));
    assert(environ::held(out@) =~= system());
    out
}

/// The path is under one of the directories.
pub open spec fn under_any(path: Seq<u8>, dirs: Seq<Seq<u8>>) -> bool {
    exists|i: int| 0 <= i < dirs.len() && is_under(path, #[trigger] dirs[i])
}

/// One of the directories is under the path.
pub open spec fn above_any(path: Seq<u8>, dirs: Seq<Seq<u8>>) -> bool {
    exists|i: int| 0 <= i < dirs.len() && is_under(#[trigger] dirs[i], path)
}

fn is_under_any(path: &[u8], dirs: &Vec<Vec<u8>>) -> (r: bool)
    ensures
        r == under_any(path@, environ::held(dirs@)),
{
    let ghost d = environ::held(dirs@);
    let mut i: usize = 0;
    while i < dirs.len()
        invariant
            i <= dirs@.len(),
            d == environ::held(dirs@),
            forall|k: int| 0 <= k < i ==> !is_under(path@, #[trigger] d[k]),
        decreases dirs@.len() - i,
    {
        assert(d[i as int] == dirs@[i as int]@);
        if under(path, dirs[i].as_slice()) {
            assert(is_under(path@, d[i as int]));
            return true;
        }
        i += 1;
    }
    false
}

fn is_above_any(path: &[u8], dirs: &Vec<Vec<u8>>) -> (r: bool)
    ensures
        r == above_any(path@, environ::held(dirs@)),
{
    let ghost d = environ::held(dirs@);
    let mut i: usize = 0;
    while i < dirs.len()
        invariant
            i <= dirs@.len(),
            d == environ::held(dirs@),
            forall|k: int| 0 <= k < i ==> !is_under(#[trigger] d[k], path@),
        decreases dirs@.len() - i,
    {
        assert(d[i as int] == dirs@[i as int]@);
        if under(dirs[i].as_slice(), path) {
            assert(is_under(d[i as int], path@));
            return true;
        }
        i += 1;
    }
    false
}

/// What a guest's host may touch
pub struct Policy {
    pub root: Vec<u8>,
    pub allow: Vec<Vec<u8>>,
    pub host: String,
    /// How many calls were refused
    pub refused: u32,
}

/// What a call on a path comes to
#[derive(Debug, Clone, Copy, PartialEq, Eq, Structural)]
pub enum Answer {
    Permitted,
    /// Only asking: on this host the path does not exist (`ENOENT`). That
    /// is worth a log line only if it exists for real.
    Unknown,
    /// Not this host's to touch (`EACCES`)
    Refused,
}

/// The allowed locations of the first `n` entries
pub open spec fn allowed(entries: Seq<Seq<char>>, n: int) -> Seq<Seq<u8>>
    decreases n,
{
    if n <= 0 {
        Seq::empty()
    } else {
        let before = allowed(entries, n - 1);
        if entries[n - 1].len() == 0 {
            before
        } else {
            before.push(public(normalized(environ::encoded(entries[n - 1]), seq![SLASH])))
        }
    }
}

/// What stands behind the last slash
pub open spec fn last_part(s: Seq<char>) -> Seq<char>
    decreases s.len(),
{
    if s.len() == 0 || s.last() == '/' {
        Seq::empty()
    } else {
        last_part(s.drop_last()).push(s.last())
    }
}

fn name_of(root: &str) -> (r: String)
    ensures
        r@ == last_part(root@),
{
    let chars = chars_of(root);
    let n: usize = chars.len();
    let mut at: usize = n;
    assert(chars@.take(n as int) =~= chars@);
    assert(last_part(chars@) + chars@.skip(n as int) =~= last_part(chars@));
    while at > 0 && chars[at - 1] != '/'
        invariant
            at <= n == chars@.len(),
            last_part(chars@) == last_part(chars@.take(at as int)) + chars@.skip(at as int),
        decreases at,
    {
        let ghost head = chars@.take(at as int);
        assert(head.drop_last() =~= chars@.take(at - 1));
        assert(last_part(head.drop_last()).push(head.last()) + chars@.skip(at as int) =~= last_part(
            head.drop_last(),
        ) + chars@.skip(at - 1));
        at -= 1;
    }
    let tail = part(&chars, at, n);
    assert(tail@ =~= chars@.skip(at as int));
    assert(last_part(chars@.take(at as int)) =~= Seq::<char>::empty());
    assert(last_part(chars@) =~= tail@);
    string_of(&tail)
}

fn put_public(path: &[u8]) -> (r: Vec<u8>)
    ensures
        r@ == public(normalized(path@, seq![SLASH])),
{
    let mut base: Vec<u8> = Vec::new();
    base.push(SLASH);
    assert(base@ =~= seq![SLASH]);
    let normal = normalize(path, base.as_slice());
    vstd::slice::slice_to_vec(unprivate(normal.as_slice()))
}

impl Policy {
    /// The policy of a host: its directory, and the locations every host
    /// may touch, with `:` between. None where there is no directory:
    /// single-program runs have no policy, and every path is theirs.
    pub fn new(root: &str, allow: &str) -> (r: Option<Policy>)
        ensures
            match r {
                Some(p) => {
                    let entries = text::pieces(allow@, ':');
                    &&& root@.len() > 0
                    &&& p.root@ == public(normalized(environ::encoded(root@), seq![SLASH]))
                    &&& environ::held(p.allow@) == allowed(entries, entries.len() as int)
                    &&& p.host@ == last_part(root@)
                    &&& p.refused == 0
                },
                None => root@.len() == 0,
            },
    {
        if chars_of(root).len() == 0 {
            return None;
        }
        let entries = split(&chars_of(allow), ':');
        let ghost all = text::pieces(allow@, ':');
        let mut dirs: Vec<Vec<u8>> = Vec::new();
        assert(environ::held(dirs@) =~= Seq::empty());
        let mut i: usize = 0;
        while i < entries.len()
            invariant
                i <= entries@.len() == all.len(),
                forall|k: int| 0 <= k < all.len() ==> #[trigger] entries@[k]@ == all[k],
                environ::held(dirs@) == allowed(all, i as int),
            decreases entries@.len() - i,
        {
            assert(entries@[i as int]@ == all[i as int]);
            if entries[i].len() > 0 {
                let entry = string_of(&entries[i]);
                let dir = put_public(entry.as_str().as_bytes());
                let ghost was = environ::held(dirs@);
                dirs.push(dir);
                assert(environ::held(dirs@) =~= was.push(dir@));
            }
            i += 1;
        }
        Some(
            Policy {
                root: put_public(root.as_bytes()),
                allow: dirs,
                host: name_of(root),
                refused: 0,
            },
        )
    }

    /// CoreFoundation reads this file from the real home directory (from
    /// the password database, not `HOME`) in every program that links it.
    pub open spec fn is_ambient(seen: Seq<u8>, asking: bool) -> bool {
        environ::encoded("/.CFUserTextEncoding"@).is_suffix_of(seen) || (asking && seen
            == environ::encoded("/private"@))
    }

    /// The path, in the form in which it is compared, is this host's to
    /// touch, or to ask about.
    pub open spec fn permits(self, seen: Seq<u8>, asking: bool) -> bool {
        let allow = environ::held(self.allow@);
        ||| Policy::is_ambient(seen, asking)
        ||| is_under(seen, self.root@)
        ||| asking && (is_under(self.root@, seen) || above_any(seen, system()) || above_any(
            seen,
            allow,
        ))
        ||| under_any(seen, system())
        ||| under_any(seen, allow)
    }

    /// What a call on the path comes to
    pub open spec fn answer(self, given: Seq<u8>, here: Seq<u8>, asking: bool) -> Answer {
        if self.permits(public(normalized(given, here)), asking) {
            Answer::Permitted
        } else if asking {
            Answer::Unknown
        } else {
            Answer::Refused
        }
    }

    /// What a call on the path `given` comes to, from the working directory
    /// `here`. A call that only asks about a path (`stat`, `access`,
    /// `readlink`) may also ask about the directories above anything
    /// permitted. Programs walk them (`realpath` on `/var/...` reads the
    /// `/var` symlink; `mkdir -p`), and they say nothing about another host.
    pub fn check(&self, given: &[u8], here: &[u8], asking: bool) -> (r: Answer)
        ensures
            r == self.answer(given@, here@, asking),
    {
        let normal = normalize(given, here);
        let seen = unprivate(normal.as_slice());
        let dirs = system_dirs();
        let ambient: bool = ends_with(seen, "/.CFUserTextEncoding".as_bytes()) || (asking && same(
            seen,
            "/private".as_bytes(),
        ));
        let ok: bool = ambient || under(seen, self.root.as_slice()) || (asking && (under(
            self.root.as_slice(),
            seen,
        ) || is_above_any(seen, &dirs) || is_above_any(seen, &self.allow))) || is_under_any(
            seen,
            &dirs,
        ) || is_under_any(seen, &self.allow);
        if ok {
            Answer::Permitted
        } else if asking {
            Answer::Unknown
        } else {
            Answer::Refused
        }
    }

    /// What is logged of a refusal
    pub open spec fn refusal(self, call: Seq<char>, given: Seq<u8>) -> Seq<char> {
        "host "@ + self.host@ + ": "@ + call + " "@ + macho::read_text(given)
            + " refused: outside the host's directory"@
    }

    /// A call was refused. Returns what to log, if it is among the first.
    pub fn refuse(&mut self, call: &str, given: &[u8]) -> (r: Option<String>)
        ensures
            final(self).root == old(self).root,
            final(self).allow == old(self).allow,
            final(self).host == old(self).host,
            final(self).refused == old(self).refused.wrapping_add(1),
            match r {
                Some(line) => old(self).refused < MAX_LOGGED && line@ == old(self).refusal(
                    call@,
                    given@,
                ),
                None => old(self).refused >= MAX_LOGGED,
            },
    {
        let before: u32 = self.refused;
        self.refused = before.wrapping_add(1);
        if before >= MAX_LOGGED {
            return None;
        }
        let mut line = "host ".to_owned();
        line.append(self.host.as_str());
        line.append(": ");
        line.append(call);
        line.append(" ");
        line.append(macho::lossy(given).as_str());
        line.append(" refused: outside the host's directory");
        Some(line)
    }
}

fn ends_with(s: &[u8], suffix: &[u8]) -> (r: bool)
    ensures
        r == suffix@.is_suffix_of(s@),
{
    if suffix.len() > s.len() {
        return false;
    }
    let n: usize = s.len() - suffix.len();
    let tail = vstd::slice::slice_subrange(s, n, s.len());
    same(tail, suffix)
}

/// A path relative to a directory descriptor was checked when that
/// directory was opened.
pub fn relative_to_descriptor(from_cwd: bool, path: &[u8]) -> (r: bool)
    ensures
        r == (!from_cwd && !(path@.len() > 0 && path@[0] == SLASH)),
{
    !from_cwd && !(path.len() > 0 && path[0] == SLASH)
}

/// A path below another host's directory is refused, unless a location that
/// every host may touch holds it: going up and around does not help.
pub proof fn another_host_is_out_of_reach(p: Policy, given: Seq<u8>, here: Seq<u8>)
    requires
        !is_under(public(normalized(given, here)), p.root@),
        !under_any(public(normalized(given, here)), system()),
        !under_any(public(normalized(given, here)), environ::held(p.allow@)),
        !environ::encoded("/.CFUserTextEncoding"@).is_suffix_of(public(normalized(given, here))),
    ensures
        p.answer(given, here, false) == Answer::Refused,
{
}

/// What a host may touch it may also ask about.
pub proof fn what_is_permitted_can_be_asked_about(p: Policy, given: Seq<u8>, here: Seq<u8>)
    ensures
        p.answer(given, here, false) == Answer::Permitted ==> p.answer(given, here, true)
            == Answer::Permitted,
{
}

} // verus!
