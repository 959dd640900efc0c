//! What paths come to and what a host may touch, said of the paths
//! themselves.

use vstd::prelude::*;
use super::{Answer, Policy, SLASH};
use crate::environ;
use crate::hostfs;

verus! {

/// A name that stands for itself in a path: not empty, not `.` or `..`, and
/// without a slash
pub open spec fn is_name(s: Seq<u8>) -> bool {
    &&& s.len() > 0
    &&& s != seq![0x2eu8]
    &&& s != seq![0x2eu8, 0x2eu8]
    &&& !s.contains(0x2fu8)
}

/// The path is the directory, or begins with it and a slash; all is within `/`.
pub open spec fn within(path: Seq<u8>, dir: Seq<u8>) -> bool {
    ||| path == dir
    ||| (dir + seq![0x2fu8]).is_prefix_of(path)
    ||| dir == seq![0x2fu8]
}

proof fn lemma_within(path: Seq<u8>, dir: Seq<u8>)
    ensures
        within(path, dir) <==> hostfs::is_under(path, dir),
{
    let longer = dir + seq![0x2fu8];
    if hostfs::is_under(path, dir) && dir != seq![SLASH] {
        let rest = path.skip(dir.len() as int);
        if rest.len() == 0 {
            assert(path =~= dir);
        } else {
            assert(path.take(dir.len() as int + 1) =~= longer);
            assert(path =~= longer + path.skip(dir.len() as int + 1));
        }
    }
    if path == dir {
        assert(dir.is_prefix_of(path));
        assert(path.skip(dir.len() as int).len() == 0);
    }
    if longer.is_prefix_of(path) {
        assert forall|i: int| 0 <= i < dir.len() implies dir[i] == path[i] by {
            assert(longer[i] == path[i]);
        }
        assert(longer[dir.len() as int] == 0x2f);
        assert(path[dir.len() as int] == 0x2f);
        assert(path.skip(dir.len() as int)[0] == 0x2f);
    }
}

/// A system location
pub open spec fn is_system(dir: Seq<u8>) -> bool {
    ||| dir == environ::encoded("/usr"@)
    ||| dir == environ::encoded("/System"@)
    ||| dir == environ::encoded("/Library"@)
    ||| dir == environ::encoded("/bin"@)
    ||| dir == environ::encoded("/sbin"@)
    ||| dir == environ::encoded("/dev"@)
    ||| dir == environ::encoded("/etc"@)
    ||| dir == environ::encoded("/var/db"@)
    ||| dir == environ::encoded("/var/run"@)
    ||| dir == environ::encoded("/var/folders"@)
    ||| dir == environ::encoded("/opt/homebrew"@)
    ||| dir == environ::encoded("/Applications/Xcode"@)
}

/// A location of the policy: the host's own, a system one, or an allowed one
pub open spec fn is_location(p: Policy, dir: Seq<u8>) -> bool {
    ||| dir == p.root@
    ||| is_system(dir)
    ||| exists|i: int| 0 <= i < p.allow@.len() && dir == (#[trigger] p.allow@[i])@
}

#[verifier::rlimit(40)]
proof fn lemma_system(dir: Seq<u8>)
    ensures
        is_system(dir) <==> hostfs::system().contains(dir),
{
    let all = hostfs::system();
    assert(all.len() == 12);
    assert(all[0] == environ::encoded("/usr"@));
    assert(all[1] == environ::encoded("/System"@));
    assert(all[2] == environ::encoded("/Library"@));
    assert(all[3] == environ::encoded("/bin"@));
    assert(all[4] == environ::encoded("/sbin"@));
    assert(all[5] == environ::encoded("/dev"@));
    assert(all[6] == environ::encoded("/etc"@));
    assert(all[7] == environ::encoded("/var/db"@));
    assert(all[8] == environ::encoded("/var/run"@));
    assert(all[9] == environ::encoded("/var/folders"@));
    assert(all[10] == environ::encoded("/opt/homebrew"@));
    assert(all[11] == environ::encoded("/Applications/Xcode"@));
}

proof fn lemma_location(p: Policy, dir: Seq<u8>)
    ensures
        is_location(p, dir) <==> dir == p.root@ || hostfs::system().contains(dir) || environ::held(
            p.allow@,
        ).contains(dir),
{
    lemma_system(dir);
    let allow = environ::held(p.allow@);
    if allow.contains(dir) {
        let i = choose|i: int| 0 <= i < allow.len() && allow[i] == dir;
        assert(p.allow@[i]@ == dir);
    }
    if exists|i: int| 0 <= i < p.allow@.len() && dir == (#[trigger] p.allow@[i])@ {
        let i = choose|i: int| 0 <= i < p.allow@.len() && dir == (#[trigger] p.allow@[i])@;
        assert(allow[i] == dir);
    }
}

/// Whatever is within the host's directory, a system location or an allowed
/// one is permitted, whether the call touches it or asks about it.
pub proof fn what_is_within_a_location_is_permitted(
    p: Policy,
    given: Seq<u8>,
    here: Seq<u8>,
    asking: bool,
    dir: Seq<u8>,
)
    requires
        is_location(p, dir),
        within(hostfs::public(hostfs::normalized(given, here)), dir),
    ensures
        p.answer(given, here, asking) == Answer::Permitted,
{
    let seen = hostfs::public(hostfs::normalized(given, here));
    lemma_within(seen, dir);
    lemma_location(p, dir);
    if hostfs::system().contains(dir) {
        assert(hostfs::under_any(seen, hostfs::system()));
    }
    if environ::held(p.allow@).contains(dir) {
        assert(hostfs::under_any(seen, environ::held(p.allow@)));
    }
}

/// A call may ask about a directory that leads to a location, and only ask.
pub proof fn what_leads_to_a_location_can_be_asked_about(
    p: Policy,
    given: Seq<u8>,
    here: Seq<u8>,
    dir: Seq<u8>,
)
    requires
        is_location(p, dir),
        within(dir, hostfs::public(hostfs::normalized(given, here))),
    ensures
        p.answer(given, here, true) == Answer::Permitted,
{
    let seen = hostfs::public(hostfs::normalized(given, here));
    lemma_within(dir, seen);
    lemma_location(p, dir);
    if hostfs::system().contains(dir) {
        assert(hostfs::above_any(seen, hostfs::system()));
    }
    if environ::held(p.allow@).contains(dir) {
        assert(hostfs::above_any(seen, environ::held(p.allow@)));
    }
}

/// Nothing else is: what is within no location is refused, and is not there
/// for a call that asks, unless it leads to one. The file CoreFoundation reads
/// and, for a call that asks, `/private` are outside this.
#[verifier::rlimit(40)]
pub proof fn what_is_within_no_location_is_refused(p: Policy, given: Seq<u8>, here: Seq<u8>)
    requires
        ({
            let seen = hostfs::public(hostfs::normalized(given, here));
            &&& !environ::encoded("/.CFUserTextEncoding"@).is_suffix_of(seen)
            &&& seen != environ::encoded("/private"@)
            &&& forall|dir: Seq<u8>| #[trigger] is_location(p, dir) ==> !within(seen, dir)
        }),
    ensures
        p.answer(given, here, false) == Answer::Refused,
        (forall|dir: Seq<u8>| #[trigger]
            is_location(p, dir) ==> !within(
                dir,
                hostfs::public(hostfs::normalized(given, here)),
            )) ==> p.answer(given, here, true) == Answer::Unknown,
{
    let seen = hostfs::public(hostfs::normalized(given, here));
    lemma_outside(p, seen, hostfs::system());
    lemma_outside(p, seen, environ::held(p.allow@));
    assert(is_location(p, p.root@));
    lemma_within(seen, p.root@);
    lemma_within(p.root@, seen);
}

#[verifier::rlimit(40)]
proof fn lemma_outside(p: Policy, seen: Seq<u8>, dirs: Seq<Seq<u8>>)
    requires
        dirs == hostfs::system() || dirs == environ::held(p.allow@),
    ensures
        (forall|dir: Seq<u8>| #[trigger] is_location(p, dir) ==> !within(seen, dir))
            ==> !hostfs::under_any(seen, dirs),
        (forall|dir: Seq<u8>| #[trigger] is_location(p, dir) ==> !within(dir, seen))
            ==> !hostfs::above_any(seen, dirs),
{
    if hostfs::under_any(seen, dirs) {
        let i = choose|i: int| 0 <= i < dirs.len() && hostfs::is_under(seen, #[trigger] dirs[i]);
        assert(dirs.contains(dirs[i]));
        lemma_location(p, dirs[i]);
        lemma_within(seen, dirs[i]);
        assert(is_location(p, dirs[i]) && within(seen, dirs[i]));
    }
    if hostfs::above_any(seen, dirs) {
        let i = choose|i: int| 0 <= i < dirs.len() && hostfs::is_under(#[trigger] dirs[i], seen);
        assert(dirs.contains(dirs[i]));
        lemma_location(p, dirs[i]);
        lemma_within(dirs[i], seen);
        assert(is_location(p, dirs[i]) && within(dirs[i], seen));
    }
}

/// The three links into `/private` are compared without it, and every other
/// path as it is.
pub proof fn links_are_compared_in_one_form(path: Seq<u8>, rest: Seq<u8>)
    ensures
        ({
            let private = environ::encoded("/private"@);
            let linked = |r: Seq<u8>|
                within(r, environ::encoded("/tmp"@)) || within(r, environ::encoded("/var"@))
                    || within(r, environ::encoded("/etc"@));
            &&& !private.is_prefix_of(path) ==> hostfs::public(path) == path
            &&& linked(rest) ==> hostfs::public(private + rest) == rest
            &&& !linked(rest) ==> hostfs::public(private + rest) == private + rest
        }),
{
    let private = environ::encoded("/private"@);
    lemma_within(rest, environ::encoded("/tmp"@));
    lemma_within(rest, environ::encoded("/var"@));
    lemma_within(rest, environ::encoded("/etc"@));
    assert(private.is_prefix_of(private + rest));
    assert((private + rest).skip(private.len() as int) =~= rest);
}

proof fn lemma_step(path: Seq<u8>, cwd: Seq<u8>, part: Seq<u8>)
    requires
        path.len() > 0,
        !part.contains(0x2fu8),
    ensures
        hostfs::parts_of(path + seq![0x2fu8] + part, cwd) == hostfs::stepped(
            hostfs::parts_of(path, cwd),
            part,
        ),
{
    let whole = path + seq![0x2fu8] + part;
    assert(whole[0] == path[0]);
    assert forall|i: int| 0 <= i < part.len() implies #[trigger] part[i] != SLASH by {
        assert(part.contains(part[i]));
    }
    hostfs::lemma_walked_more(Seq::empty(), path, part);
    hostfs::lemma_walked_more(hostfs::walked(Seq::empty(), cwd), path, part);
}

/// How a path grows: a name is added behind what it follows; an empty part and
/// `.` add nothing; `..` takes away the name before it.
#[verifier::rlimit(40)]
pub proof fn a_path_grows_by_its_last_part(path: Seq<u8>, cwd: Seq<u8>, name: Seq<u8>)
    requires
        path.len() > 0,
        is_name(name),
    ensures
        ({
            let slash = seq![0x2fu8];
            let dot = seq![0x2eu8];
            let n = hostfs::normalized(path, cwd);
            &&& hostfs::normalized(path + slash + name, cwd) == (if n == slash {
                slash + name
            } else {
                n + slash + name
            })
            &&& hostfs::normalized(path + slash, cwd) == n
            &&& hostfs::normalized(path + slash + dot, cwd) == n
            &&& hostfs::normalized(path + slash + name + slash + dot + dot, cwd) == n
            &&& n == slash ==> hostfs::normalized(path + slash + dot + dot, cwd) == slash
        }),
{
    let slash = seq![0x2fu8];
    let dot = seq![0x2eu8];
    let up = seq![0x2eu8, 0x2eu8];
    let n = hostfs::normalized(path, cwd);
    let parts = hostfs::parts_of(path, cwd);
    lemma_step(path, cwd, name);
    assert(parts.push(name).drop_last() =~= parts);
    hostfs::a_normal_path_does_not_go_up(path, cwd);
    lemma_root(parts);
    assert(hostfs::parts_of(path + slash + name, cwd) == parts.push(name));
    assert(parts.push(name).last() == name);
    assert(hostfs::rendered(parts.push(name)) == hostfs::rendered(parts) + slash + name);
    if parts.len() == 0 {
        assert(hostfs::rendered(parts) + slash + name =~= slash + name);
    }
    lemma_step(path, cwd, Seq::empty());
    assert(path + slash + Seq::<u8>::empty() =~= path + slash);
    assert(!dot.contains(0x2fu8));
    lemma_step(path, cwd, dot);
    assert(!up.contains(0x2fu8));
    let longer = path + slash + name;
    lemma_step(longer, cwd, up);
    assert(longer + slash + up =~= path + slash + name + slash + dot + dot);
    assert(up != dot) by {
        assert(up.len() != dot.len());
    }
    lemma_step(path, cwd, up);
    assert(path + slash + up =~= path + slash + dot + dot);
}

/// Only the path without parts is the root.
proof fn lemma_root(parts: Seq<Seq<u8>>)
    requires
        hostfs::all_plain(parts),
    ensures
        hostfs::path_of(parts) == seq![0x2fu8] <==> parts.len() == 0,
{
    if parts.len() > 0 {
        assert(hostfs::is_plain(parts[parts.len() - 1]));
        assert(hostfs::rendered(parts).len() > 1);
    }
}

/// Where a path starts: an absolute one at the root, a relative one at the
/// working directory, as if that stood before it.
#[verifier::rlimit(40)]
pub proof fn a_path_starts_where_it_says(path: Seq<u8>, cwd: Seq<u8>, name: Seq<u8>, other: Seq<u8>)
    requires
        is_name(name),
        cwd.len() > 0,
        cwd[0] == 0x2f,
    ensures
        ({
            let slash = seq![0x2fu8];
            let up = seq![0x2eu8, 0x2eu8];
            &&& hostfs::normalized(slash, cwd) == slash
            &&& hostfs::normalized(slash + name, cwd) == slash + name
            &&& hostfs::normalized(slash + up, cwd) == slash
            &&& path.len() > 0 && path[0] == 0x2f ==> hostfs::normalized(path, cwd)
                == hostfs::normalized(path, other)
            &&& path.len() == 0 || path[0] != 0x2f ==> hostfs::normalized(path, cwd)
                == hostfs::normalized(cwd + slash + path, other)
        }),
{
    let slash = seq![0x2fu8];
    let up = seq![0x2eu8, 0x2eu8];
    let none = Seq::<u8>::empty();
    let no_parts = Seq::<Seq<u8>>::empty();
    assert(none.take(0) =~= none);
    assert(hostfs::walked(no_parts, none) == no_parts);
    assert(!none.contains(0x2fu8));
    hostfs::lemma_walked_more(no_parts, none, none);
    assert(none + slash + none =~= slash);
    assert forall|i: int| 0 <= i < name.len() implies #[trigger] name[i] != SLASH by {
        assert(name.contains(name[i]));
    }
    hostfs::lemma_walked_more(no_parts, none, name);
    assert(none + slash + name =~= slash + name);
    hostfs::lemma_walked_more(no_parts, none, up);
    assert(none + slash + up =~= slash + up);
    assert(no_parts.push(name).drop_last() =~= no_parts);
    assert(hostfs::rendered(no_parts) =~= none);
    assert(hostfs::rendered(no_parts.push(name)) =~= slash + name);
    lemma_walked_on(no_parts, cwd, path);
    assert((cwd + slash + path)[0] == 0x2f);
}

/// Walking a path behind another is walking one after the other.
proof fn lemma_walked_on(parts: Seq<Seq<u8>>, first: Seq<u8>, second: Seq<u8>)
    ensures
        hostfs::walked(parts, first + seq![0x2fu8] + second) == hostfs::walked(
            hostfs::walked(parts, first),
            second,
        ),
    decreases first.len(),
{
    let whole = first + seq![0x2fu8] + second;
    hostfs::lemma_part_len(first);
    hostfs::lemma_part_len_prefix(first, second);
    let n = hostfs::part_len(first) as int;
    assert(whole.take(n) =~= first.take(n));
    let here = hostfs::stepped(parts, first.take(n));
    if n < first.len() {
        assert(whole.skip(n + 1) =~= first.skip(n + 1) + seq![0x2fu8] + second);
        lemma_walked_on(here, first.skip(n + 1), second);
    } else {
        assert(whole.skip(n + 1) =~= second);
    }
}

/// Every entry of the list that is not empty is allowed, in the form in which
/// paths are compared, and nothing else is.
pub proof fn every_entry_is_allowed(entries: Seq<Seq<char>>, dir: Seq<u8>)
    ensures
        hostfs::allowed(entries, entries.len() as int).contains(dir) <==> exists|i: int|
            0 <= i < entries.len() && (#[trigger] entries[i]).len() > 0 && dir == hostfs::public(
                hostfs::normalized(environ::encoded(entries[i]), seq![0x2fu8]),
            ),
{
    lemma_allowed(entries, entries.len() as int, dir);
}

proof fn lemma_allowed(entries: Seq<Seq<char>>, n: int, dir: Seq<u8>)
    requires
        0 <= n <= entries.len(),
    ensures
        hostfs::allowed(entries, n).contains(dir) <==> exists|i: int|
            0 <= i < n && (#[trigger] entries[i]).len() > 0 && dir == hostfs::public(
                hostfs::normalized(environ::encoded(entries[i]), seq![0x2fu8]),
            ),
    decreases n,
{
    if n > 0 {
        lemma_allowed(entries, n - 1, dir);
        let before = hostfs::allowed(entries, n - 1);
        let all = hostfs::allowed(entries, n);
        let last = hostfs::public(
            hostfs::normalized(environ::encoded(entries[n - 1]), seq![0x2fu8]),
        );
        if entries[n - 1].len() > 0 {
            assert(all == before.push(last));
            if before.contains(dir) {
                let k = choose|k: int| 0 <= k < before.len() && before[k] == dir;
                assert(all[k] == dir);
            }
            assert(all[before.len() as int] == last);
            if all.contains(dir) {
                let k = choose|k: int| 0 <= k < all.len() && all[k] == dir;
                if k < before.len() {
                    assert(before[k] == dir);
                }
            }
        }
    }
}

} // verus!
