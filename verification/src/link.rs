//! What becomes of a program that was just linked: left as it is, or linked
//! once more with rooms in its text for the sites that do not reach the
//! stubs.

use vstd::prelude::*;
use crate::rewrite::Stats;
use crate::rooms::Plan;
use crate::text;
use crate::text::{lines, push_decimal, push_hex, same_text};
use crate::words;

verus! {

/// The first `-o` from number `i` on that has a file behind it
pub open spec fn output_from(args: Seq<Seq<char>>, i: int) -> Option<int>
    decreases args.len() - i,
{
    if i < 0 || i + 1 >= args.len() {
        None
    } else if args[i] == "-o"@ {
        Some(i + 1)
    } else {
        output_from(args, i + 1)
    }
}

/// Which of a linker's arguments names the file it makes
pub fn output_of(args: &Vec<String>) -> (r: Option<usize>)
    ensures
        match r {
            Some(i) => i < args@.len() && output_from(words::texts(args@), 0) == Some(i as int),
            None => output_from(words::texts(args@), 0) is None,
        },
{
    let ghost all = words::texts(args@);
    let mut i: usize = 0;
    while i < args.len()
        invariant
            i <= args@.len(),
            all == words::texts(args@),
            output_from(all, 0) == output_from(all, i as int),
        decreases args@.len() - i,
    {
        assert(all[i as int] == args@[i as int]@);
        if i + 1 < args.len() && same_text(args[i].as_str(), "-o") {
            return Some(i + 1);
        }
        i += 1;
    }
    None
}

/// The argument makes a library, a bundle or an object file.
pub open spec fn is_shared(arg: Seq<char>) -> bool {
    arg == "-dynamiclib"@ || arg == "-shared"@ || arg == "-bundle"@ || arg == "-r"@
}

/// Whether a linker's arguments make something other than an executable
pub fn makes_library(args: &Vec<String>) -> (r: bool)
    ensures
        r == exists|i: int| 0 <= i < args@.len() && is_shared((#[trigger] args@[i])@),
{
    let mut i: usize = 0;
    while i < args.len()
        invariant
            i <= args@.len(),
            forall|k: int| 0 <= k < i ==> !is_shared((#[trigger] args@[k])@),
        decreases args@.len() - i,
    {
        let a = args[i].as_str();
        if same_text(a, "-dynamiclib") || same_text(a, "-shared") || same_text(a, "-bundle")
            || same_text(a, "-r") {
            assert(is_shared(args@[i as int]@));
            return true;
        }
        i += 1;
    }
    false
}

/// What a scan of the linked program asks for
#[derive(Debug, Clone, Copy, PartialEq, Eq, Structural)]
pub enum Verdict {
    /// Every site reaches the stubs.
    Fine,
    /// It has rooms already, and some sites reach none of them.
    OutOfReach,
    /// Link it again, with rooms.
    Again,
}

pub fn judge(stats: &Stats) -> (r: Verdict)
    ensures
        r == (if stats.unreachable_sites == 0 {
            Verdict::Fine
        } else if stats.rooms > 0 {
            Verdict::OutOfReach
        } else {
            Verdict::Again
        }),
{
    if stats.unreachable_sites == 0 {
        Verdict::Fine
    } else if stats.rooms > 0 {
        Verdict::OutOfReach
    } else {
        Verdict::Again
    }
}

/// What is said of a program whose rooms do not do
pub fn out_of_reach(name: &str, stats: &Stats) -> (r: String)
    ensures
        r@ == "derp cc: "@ + name@ + ": "@ + text::decimal(stats.unreachable_sites as nat)
            + " sites out of a b's reach with the "@ + text::decimal(stats.rooms as nat)
            + " rooms it has"@,
{
    let mut out = "derp cc: ".to_owned();
    out.append(name);
    out.append(": ");
    push_decimal(&mut out, stats.unreachable_sites as u64);
    out.append(" sites out of a b's reach with the ");
    push_decimal(&mut out, stats.rooms as u64);
    out.append(" rooms it has");
    out
}

/// All sites that were tried
pub open spec fn tried(s: Stats) -> int {
    s.branch_sites + s.call_sites + s.unreachable_sites
}

/// The bytes of the first `n` rooms
pub open spec fn room_bytes(rooms: Seq<(String, u64)>, n: int) -> int
    decreases n,
{
    if n <= 0 {
        0
    } else {
        room_bytes(rooms, n - 1) + rooms[n - 1].1
    }
}

proof fn lemma_room_bytes(rooms: Seq<(String, u64)>, n: int, m: int)
    requires
        0 <= n <= m,
    ensures
        0 <= room_bytes(rooms, n) <= room_bytes(rooms, m),
    decreases m,
{
    if m > n {
        lemma_room_bytes(rooms, n, m - 1);
    } else if n > 0 {
        lemma_room_bytes(rooms, n - 1, n - 1);
    }
}

/// What is said of a program that was linked again
pub open spec fn relinked(
    name: Seq<char>,
    far: u64,
    tried: int,
    rooms: nat,
    bytes: int,
    left: usize,
) -> Seq<char> {
    "derp cc: "@ + name + ": "@ + text::decimal(far as nat) + " of "@ + text::decimal(tried as nat)
        + " sites were out of a b's reach; linked again with "@ + text::decimal(rooms) + " room"@
        + (if rooms == 1 {
        ""@
    } else {
        "s"@
    }) + " ("@ + text::decimal((bytes / 0x10_0000) as nat) + " MB) in the text; "@
        + text::decimal(left as nat) + " still out of reach"@
}

/// What is said of a program that was linked again: `before` and `after`
/// are the scans of the two
pub fn relink_report(name: &str, plan: &Plan, before: &Stats, after: &Stats) -> (r: String)
    requires
        tried(*before) <= u64::MAX,
        room_bytes(plan.rooms@, plan.rooms@.len() as int) <= u64::MAX,
    ensures
        r@ == relinked(
            name@,
            plan.far_sites,
            tried(*before),
            plan.rooms@.len(),
            room_bytes(plan.rooms@, plan.rooms@.len() as int),
            after.unreachable_sites,
        ),
{
    let sites: u64 = before.branch_sites as u64 + before.call_sites as u64
        + before.unreachable_sites as u64;
    let n: usize = plan.rooms.len();
    let mut bytes: u64 = 0;
    let mut i: usize = 0;
    while i < n
        invariant
            i <= n == plan.rooms@.len(),
            room_bytes(plan.rooms@, n as int) <= u64::MAX,
            bytes == room_bytes(plan.rooms@, i as int),
        decreases n - i,
    {
        proof {
            lemma_room_bytes(plan.rooms@, i + 1, n as int);
        }
        bytes = bytes + plan.rooms[i].1;
        i += 1;
    }
    let mut out = "derp cc: ".to_owned();
    out.append(name);
    out.append(": ");
    push_decimal(&mut out, plan.far_sites);
    out.append(" of ");
    push_decimal(&mut out, sites);
    out.append(" sites were out of a b's reach; linked again with ");
    push_decimal(&mut out, n as u64);
    out.append(" room");
    if n == 1 {
        out.append("");
    } else {
        out.append("s");
    }
    out.append(" (");
    push_decimal(&mut out, bytes / 0x10_0000);
    out.append(" MB) in the text; ");
    push_decimal(&mut out, after.unreachable_sites as u64);
    out.append(" still out of reach");
    out
}

/// What `derp rooms` says of a program
pub open spec fn scan_line(s: Stats) -> Seq<char> {
    "sites="@ + text::decimal(tried(s) as nat) + " unreachable="@ + text::decimal(
        s.unreachable_sites as nat,
    ) + " rooms="@ + text::decimal(s.rooms as nat) + " room_bytes="@ + text::decimal(
        s.room_bytes as nat,
    )
}

pub open spec fn room_line(room: (String, u64)) -> Seq<char> {
    room.0@ + " "@ + text::decimal(room.1 as nat) + " bytes"@
}

pub open spec fn plan_lines(s: Stats, plan: Option<Plan>) -> Seq<Seq<char>> {
    match plan {
        None => seq![scan_line(s), "every site reaches the stubs: no rooms needed"@],
        Some(p) => seq![
            scan_line(s),
            "far_sites="@ + text::decimal(p.far_sites as nat) + " order_file_lines="@
                + text::decimal(text::lines_of(p.order_file@).len()),
        ] + Seq::new(p.rooms@.len(), |i: int| room_line(p.rooms@[i])),
    }
}

/// The plan `derp cc` would make for a program, and why
pub fn describe_plan(stats: &Stats, plan: &Option<Plan>) -> (r: Vec<String>)
    requires
        tried(*stats) <= u64::MAX,
    ensures
        words::texts(r@) == plan_lines(*stats, *plan),
{
    let mut out: Vec<String> = Vec::new();
    let mut line = "sites=".to_owned();
    push_decimal(
        &mut line,
        stats.branch_sites as u64 + stats.call_sites as u64 + stats.unreachable_sites as u64,
    );
    line.append(" unreachable=");
    push_decimal(&mut line, stats.unreachable_sites as u64);
    line.append(" rooms=");
    push_decimal(&mut line, stats.rooms as u64);
    line.append(" room_bytes=");
    push_decimal(&mut line, stats.room_bytes);
    out.push(line);
    match plan {
        None => {
            out.push("every site reaches the stubs: no rooms needed".to_owned());
            assert(words::texts(out@) =~= plan_lines(*stats, *plan));
        },
        Some(p) => {
            let mut line = "far_sites=".to_owned();
            push_decimal(&mut line, p.far_sites);
            line.append(" order_file_lines=");
            push_decimal(&mut line, lines(p.order_file.as_str()).len() as u64);
            out.push(line);
            let ghost all = plan_lines(*stats, *plan);
            assert(words::texts(out@) =~= all.take(2));
            let mut i: usize = 0;
            while i < p.rooms.len()
                invariant
                    i <= p.rooms@.len(),
                    *plan == Some(*p),
                    all == plan_lines(*stats, *plan),
                    words::texts(out@) == all.take(i + 2),
                decreases p.rooms@.len() - i,
            {
                let ghost was = words::texts(out@);
                let mut line = p.rooms[i].0.clone();
                line.append(" ");
                push_decimal(&mut line, p.rooms[i].1);
                line.append(" bytes");
                out.push(line);
                assert(words::texts(out@) =~= was.push(line@));
                assert(all[i + 2] == room_line(p.rooms@[i as int]));
                assert(all.take(i + 3) =~= was.push(all[i + 2]));
                i += 1;
            }
            assert(all.take(i + 2) =~= all);
        },
    }
    out
}

/// `key=number`
pub open spec fn counted(key: Seq<char>, n: nat) -> Seq<char> {
    key + text::decimal(n)
}

/// The first `n` addresses, with commas between
pub open spec fn addresses(v: Seq<u64>, n: int) -> Seq<char>
    decreases n,
{
    if n <= 0 {
        Seq::empty()
    } else if n == 1 {
        text::hex(v[0] as nat)
    } else {
        addresses(v, n - 1) + ","@ + text::hex(v[n - 1] as nat)
    }
}

/// What a scan says
pub open spec fn stats_lines(s: Stats) -> Seq<char> {
    counted("functions="@, s.functions as nat) + counted(
        " (stack-tainted "@,
        s.stack_tainted_functions as nat,
    ) + counted(")\nwords="@, s.words as nat) + counted("\nbranch_sites="@, s.branch_sites as nat)
        + counted(" call_sites="@, s.call_sites as nat) + counted(
        "\nmem_candidates="@,
        s.mem_candidates as nat,
    ) + counted(" mem_sites="@, s.mem_sites as nat) + counted(
        "\nskipped: exclusive_words="@,
        s.exclusive_words as nat,
    ) + counted(" data_in_code_words="@, s.data_in_code_words as nat) + counted(
        " blr_x30="@,
        s.skipped_blr_x30 as nat,
    ) + counted(" unreachable="@, s.unreachable_sites as nat) + counted(
        " unnamed_entries="@,
        s.unnamed_entries as nat,
    ) + counted("\nstub_bytes="@, s.stub_bytes as nat) + counted("\nrooms="@, s.rooms as nat)
        + counted(" room_bytes="@, s.room_bytes as nat) + "\nmem_site_addrs="@ + addresses(
        s.mem_site_addrs@,
        s.mem_site_addrs@.len() as int,
    )
}

fn count(out: &mut String, key: &str, n: u64)
    ensures
        final(out)@ == old(out)@ + counted(key@, n as nat),
{
    out.append(key);
    push_decimal(out, n);
    assert(out@ =~= old(out)@ + counted(key@, n as nat));
}

/// The statistics of a rewrite, as text
pub fn stats_text(s: &Stats) -> (r: String)
    ensures
        r@ == stats_lines(*s),
{
    let mut out = String::new();
    assert(out@ =~= Seq::<char>::empty());
    count(&mut out, "functions=", s.functions as u64);
    assert(out@ =~= counted("functions="@, s.functions as nat));
    count(&mut out, " (stack-tainted ", s.stack_tainted_functions as u64);
    count(&mut out, ")\nwords=", s.words as u64);
    count(&mut out, "\nbranch_sites=", s.branch_sites as u64);
    count(&mut out, " call_sites=", s.call_sites as u64);
    count(&mut out, "\nmem_candidates=", s.mem_candidates as u64);
    count(&mut out, " mem_sites=", s.mem_sites as u64);
    count(&mut out, "\nskipped: exclusive_words=", s.exclusive_words as u64);
    count(&mut out, " data_in_code_words=", s.data_in_code_words as u64);
    count(&mut out, " blr_x30=", s.skipped_blr_x30 as u64);
    count(&mut out, " unreachable=", s.unreachable_sites as u64);
    count(&mut out, " unnamed_entries=", s.unnamed_entries as u64);
    count(&mut out, "\nstub_bytes=", s.stub_bytes as u64);
    count(&mut out, "\nrooms=", s.rooms as u64);
    count(&mut out, " room_bytes=", s.room_bytes);
    out.append("\nmem_site_addrs=");
    let ghost head = out@;
    let v = &s.mem_site_addrs;
    let mut i: usize = 0;
    assert(out@ =~= head + addresses(v@, 0));
    while i < v.len()
        invariant
            i <= v@.len(),
            out@ == head + addresses(v@, i as int),
        decreases v@.len() - i,
    {
        if i > 0 {
            out.append(",");
        }
        push_hex(&mut out, v[i]);
        i += 1;
        assert(out@ =~= head + addresses(v@, i as int));
    }
    out
}

/// The output of a link is what follows the first `-o`.
pub proof fn the_output_follows_its_flag(args: Seq<Seq<char>>, from: int, i: int)
    requires
        0 <= from <= i,
        i + 1 < args.len(),
        args[i] == "-o"@,
        forall|k: int| from <= k < i ==> #[trigger] args[k] != "-o"@,
    ensures
        output_from(args, from) == Some(i + 1),
    decreases i - from,
{
    if from < i {
        assert(args[from] != "-o"@);
        the_output_follows_its_flag(args, from + 1, i);
    }
}

} // verus!
