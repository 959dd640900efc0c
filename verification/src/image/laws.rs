//! What a reader finds in a rewritten image

use vstd::prelude::*;
use vstd::utf8;
use super::{Inserted, Place};
use crate::bytes;
use crate::macho;
use crate::macho::{MachO, Section, Segment, LC_CODE_SIGNATURE, LC_SEGMENT_64};

verus! {

/// Whether these bytes are a load command the reader takes, of the size it
/// says
pub open spec fn sound_command(c: Seq<u8>) -> bool {
    &&& c.len() >= 8
    &&& bytes::at32(c, 4) == c.len()
    &&& bytes::at32(c, 0) == LC_SEGMENT_64 ==> macho::segment_ok(c)
}

spec fn all_sound(cmds: Seq<Seq<u8>>) -> bool {
    forall|k: int| 0 <= k < cmds.len() ==> sound_command(#[trigger] cmds[k])
}

/// Where command `k` begins among these
spec fn begins(cmds: Seq<Seq<u8>>, k: int) -> int {
    super::joined(cmds.take(k)).len() as int
}

proof fn lemma_begins(cmds: Seq<Seq<u8>>, k: int)
    requires
        0 <= k < cmds.len(),
    ensures
        begins(cmds, k + 1) == begins(cmds, k) + cmds[k].len(),
{
    assert(cmds.take(k + 1).drop_last() =~= cmds.take(k));
}

/// Command `k` stands where it begins.
proof fn lemma_joined_at(cmds: Seq<Seq<u8>>, k: int)
    requires
        0 <= k < cmds.len(),
    ensures
        0 <= begins(cmds, k),
        begins(cmds, k) + cmds[k].len() <= super::joined(cmds).len(),
        super::joined(cmds).subrange(begins(cmds, k), begins(cmds, k) + cmds[k].len()) == cmds[k],
    decreases cmds.len(),
{
    let front = cmds.drop_last();
    let all = super::joined(cmds);
    if k == cmds.len() - 1 {
        assert(cmds.take(k) =~= front);
        assert(all.subrange(begins(cmds, k), begins(cmds, k) + cmds[k].len()) =~= cmds[k]);
    } else {
        lemma_joined_at(front, k);
        assert(front.take(k) =~= cmds.take(k));
        assert(all.subrange(begins(cmds, k), begins(cmds, k) + cmds[k].len())
            =~= super::joined(front).subrange(begins(cmds, k), begins(cmds, k) + cmds[k].len()));
    }
}

/// Numbers read the same where the bytes are the same.
proof fn lemma_same_number(a: Seq<u8>, i: int, b: Seq<u8>, j: int)
    requires
        0 <= i,
        i + 4 <= a.len(),
        0 <= j,
        j + 4 <= b.len(),
        a.subrange(i, i + 4) == b.subrange(j, j + 4),
    ensures
        bytes::at32(a, i) == bytes::at32(b, j),
{
    let s = a.subrange(i, i + 4);
    let t = b.subrange(j, j + 4);
    assert(s[0] == a[i] && s[1] == a[i + 1] && s[2] == a[i + 2] && s[3] == a[i + 3]);
    assert(t[0] == b[j] && t[1] == b[j + 1] && t[2] == b[j + 2] && t[3] == b[j + 3]);
}

/// Whether the load commands stand behind the header of these bytes
spec fn holds_commands(data: Seq<u8>, cmds: Seq<Seq<u8>>) -> bool {
    &&& 32 + super::joined(cmds).len() <= data.len()
    &&& data.subrange(32, 32 + super::joined(cmds).len() as int) == super::joined(cmds)
}

/// A command's bytes are found in the file.
proof fn lemma_held(data: Seq<u8>, cmds: Seq<Seq<u8>>, k: int)
    requires
        holds_commands(data, cmds),
        0 <= k < cmds.len(),
    ensures
        32 + begins(cmds, k) + cmds[k].len() <= data.len(),
        data.subrange(32 + begins(cmds, k), 32 + begins(cmds, k) + cmds[k].len()) == cmds[k],
{
    lemma_joined_at(cmds, k);
    let all = super::joined(cmds);
    let b = begins(cmds, k);
    assert forall|i: int| 0 <= i < cmds[k].len() implies data[32 + b + i] == #[trigger] cmds[k][i] by {
        assert(data.subrange(32, 32 + all.len() as int)[b + i] == all[b + i]);
        assert(all.subrange(b, b + cmds[k].len())[i] == all[b + i]);
    }
    assert(data.subrange(32 + b, 32 + b + cmds[k].len()) =~= cmds[k]);
}

/// The reader finds each command where it was written.
proof fn lemma_walk(data: Seq<u8>, cmds: Seq<Seq<u8>>, k: int)
    requires
        holds_commands(data, cmds),
        all_sound(cmds),
        0 <= k <= cmds.len(),
    ensures
        macho::command_at(data, k) == 32 + begins(cmds, k),
    decreases k,
{
    if k == 0 {
        assert(cmds.take(0) =~= Seq::empty());
    } else {
        lemma_walk(data, cmds, k - 1);
        lemma_begins(cmds, k - 1);
        lemma_held(data, cmds, k - 1);
        let c = cmds[k - 1];
        let at = 32 + begins(cmds, k - 1);
        assert(sound_command(c));
        assert(data.subrange(at + 4, at + 8) =~= data.subrange(at, at + c.len()).subrange(4, 8));
        lemma_same_number(data, at + 4, c, 4);
    }
}

/// The reader takes each command as it was written.
proof fn lemma_command(data: Seq<u8>, cmds: Seq<Seq<u8>>, k: int)
    requires
        holds_commands(data, cmds),
        all_sound(cmds),
        0 <= k < cmds.len(),
    ensures
        macho::command_ok(data, k),
        macho::command_bytes(data, k) == cmds[k],
        bytes::at32(data, macho::command_at(data, k)) == bytes::at32(cmds[k], 0),
{
    lemma_walk(data, cmds, k);
    lemma_held(data, cmds, k);
    let c = cmds[k];
    let at = 32 + begins(cmds, k);
    assert(sound_command(c));
    assert(data.subrange(at, at + 4) =~= data.subrange(at, at + c.len()).subrange(0, 4));
    assert(data.subrange(at + 4, at + 8) =~= data.subrange(at, at + c.len()).subrange(4, 8));
    lemma_same_number(data, at, c, 0);
    lemma_same_number(data, at + 4, c, 4);
}

/// The segment commands among these
pub open spec fn segments_in(cmds: Seq<Seq<u8>>) -> Seq<Seq<u8>>
    decreases cmds.len(),
{
    if cmds.len() == 0 {
        Seq::empty()
    } else if bytes::at32(cmds.last(), 0) == LC_SEGMENT_64 {
        segments_in(cmds.drop_last()).push(cmds.last())
    } else {
        segments_in(cmds.drop_last())
    }
}

proof fn lemma_segments_push(cmds: Seq<Seq<u8>>, c: Seq<u8>)
    ensures
        segments_in(cmds.push(c)) == (if bytes::at32(c, 0) == LC_SEGMENT_64 {
            segments_in(cmds).push(c)
        } else {
            segments_in(cmds)
        }),
{
    assert(cmds.push(c).drop_last() =~= cmds);
}

proof fn lemma_segments_add(a: Seq<Seq<u8>>, b: Seq<Seq<u8>>)
    requires
        forall|k: int| 0 <= k < b.len() ==> bytes::at32(#[trigger] b[k], 0) == LC_SEGMENT_64,
    ensures
        segments_in(a + b) == segments_in(a) + b,
    decreases b.len(),
{
    if b.len() == 0 {
        assert(a + b =~= a);
        assert(segments_in(a) + b =~= segments_in(a));
    } else {
        let front = b.drop_last();
        lemma_segments_add(a, front);
        assert((a + b).drop_last() =~= a + front);
        assert((a + b).last() == b[b.len() - 1]);
        assert(segments_in(a) + b =~= (segments_in(a) + front).push(b.last()));
    }
}

/// The reader's segment commands are those among the commands.
proof fn lemma_segment_commands(data: Seq<u8>, cmds: Seq<Seq<u8>>, n: int)
    requires
        0 <= n <= cmds.len(),
        forall|k: int|
            0 <= k < cmds.len() ==> #[trigger] macho::command_bytes(data, k) == cmds[k]
                && bytes::at32(data, macho::command_at(data, k)) == bytes::at32(cmds[k], 0),
    ensures
        macho::segment_commands(data, n).len() == segments_in(cmds.take(n)).len(),
        forall|i: int|
            0 <= i < macho::segment_commands(data, n).len() ==> 0 <= (
            #[trigger] macho::segment_commands(data, n)[i]) < n && cmds[macho::segment_commands(
                data,
                n,
            )[i]] == segments_in(cmds.take(n))[i],
    decreases n,
{
    if n > 0 {
        lemma_segment_commands(data, cmds, n - 1);
        assert(macho::command_bytes(data, n - 1) == cmds[n - 1]);
        assert(cmds.take(n).drop_last() =~= cmds.take(n - 1));
        let before = macho::segment_commands(data, n - 1);
        let after = macho::segment_commands(data, n);
        assert forall|i: int| 0 <= i < after.len() implies 0 <= (#[trigger] after[i]) < n
            && cmds[after[i]] == segments_in(cmds.take(n))[i] by {
            if i < before.len() {
                assert(after[i] == before[i]);
            }
        }
    }
}

/// Whether the image is what a reader made of its bytes, each load command
/// holding its own size at least
pub open spec fn well_read(m: MachO) -> bool {
    &&& macho::image_ok(m.data@)
    &&& m.reads(m.data@)
    &&& forall|k: int| 0 <= k < m.commands.len() ==> (#[trigger] m.commands@[k]).bytes@.len() >= 8
}

/// The load commands' bytes
spec fn olds(m: MachO) -> Seq<Seq<u8>> {
    Seq::new(m.commands@.len(), |k: int| m.commands@[k].bytes@)
}

proof fn lemma_command_at(data: Seq<u8>, k: int)
    ensures
        macho::command_at(data, k) >= 32,
    decreases k,
{
    if k > 0 {
        lemma_command_at(data, k - 1);
    }
}

proof fn lemma_olds(m: MachO, k: int)
    requires
        well_read(m),
        0 <= k < m.commands.len(),
    ensures
        sound_command(olds(m)[k]),
        olds(m)[k] == macho::command_bytes(m.data@, k),
        bytes::at32(olds(m)[k], 0) == m.commands@[k].cmd,
{
    let data = m.data@;
    let at = macho::command_at(data, k);
    let c = m.commands@[k].bytes@;
    lemma_command_at(data, k);
    assert(macho::command_ok(data, k));
    assert(c == macho::command_bytes(data, k));
    assert(c.subrange(0, 4) =~= data.subrange(at, at + 4));
    assert(c.subrange(4, 8) =~= data.subrange(at + 4, at + 8));
    lemma_same_number(c, 0, data, at);
    lemma_same_number(c, 4, data, at + 4);
}

proof fn lemma_bumped_all(b: Seq<u8>, offs: Seq<int>, n: int, delta: u64)
    requires
        0 <= n <= offs.len(),
        forall|k: int| 0 <= k < offs.len() ==> #[trigger] offs[k] >= 8,
    ensures
        super::bumped_all(b, offs, n, delta).len() == b.len(),
        forall|i: int|
            0 <= i < 8 && i < b.len() ==> #[trigger] super::bumped_all(b, offs, n, delta)[i] == b[i],
    decreases n,
{
    if n > 0 {
        lemma_bumped_all(b, offs, n - 1, delta);
    }
}

/// Moving its offsets up leaves a command's kind and size alone, and a
/// segment command as it is.
proof fn lemma_shifted(cmd: u32, b: Seq<u8>, delta: u64)
    requires
        sound_command(b),
        bytes::at32(b, 0) == cmd,
    ensures
        sound_command(super::shifted(cmd, b, delta)),
        bytes::at32(super::shifted(cmd, b, delta), 0) == cmd,
        cmd == LC_SEGMENT_64 ==> super::shifted(cmd, b, delta) == b,
{
    let offs = super::offsets_in(cmd);
    let t = super::shifted(cmd, b, delta);
    lemma_bumped_all(b, offs, offs.len() as int, delta);
    assert(t.subrange(0, 4) =~= b.subrange(0, 4));
    assert(t.subrange(4, 8) =~= b.subrange(4, 8));
    lemma_same_number(t, 0, b, 0);
    lemma_same_number(t, 4, b, 4);
}

/// Another place leaves a segment command's kind, size, name and sections
/// alone.
proof fn lemma_placed(b: Seq<u8>, p: Place)
    requires
        sound_command(b),
        bytes::at32(b, 0) == LC_SEGMENT_64,
    ensures
        super::placed(b, p).len() == b.len(),
        sound_command(super::placed(b, p)),
        bytes::at32(super::placed(b, p), 0) == LC_SEGMENT_64,
        bytes::at64(super::placed(b, p), 24) == p.vmaddr,
        bytes::at64(super::placed(b, p), 32) == p.vmsize,
        bytes::at64(super::placed(b, p), 40) == p.fileoff,
        bytes::at64(super::placed(b, p), 48) == p.filesize,
        forall|i: int|
            0 <= i < b.len() && !(24 <= i < 56) ==> #[trigger] super::placed(b, p)[i] == b[i],
{
    let t = super::placed(b, p);
    assert(t.subrange(0, 4) =~= b.subrange(0, 4));
    assert(t.subrange(4, 8) =~= b.subrange(4, 8));
    assert(t.subrange(64, 68) =~= b.subrange(64, 68));
    lemma_same_number(t, 0, b, 0);
    lemma_same_number(t, 4, b, 4);
    lemma_same_number(t, 64, b, 64);
    lemma_long_number(t, 24, p.vmaddr);
    lemma_long_number(t, 32, p.vmsize);
    lemma_long_number(t, 40, p.fileoff);
    lemma_long_number(t, 48, p.filesize);
}

proof fn lemma_long_number(t: Seq<u8>, at: int, v: u64)
    requires
        0 <= at,
        at + 8 <= t.len(),
        forall|i: int| 0 <= i < 8 ==> t[at + i] == #[trigger] bytes::le64(v)[i],
    ensures
        bytes::at64(t, at) == v,
{
    let all = bytes::le64(v);
    let lo = bytes::le32((v % 0x1_0000_0000) as u32);
    let hi = bytes::le32((v / 0x1_0000_0000) as u32);
    assert forall|i: int| 0 <= i < 4 implies t[at + i] == #[trigger] lo[i] by {
        assert(all[i] == lo[i]);
    }
    assert forall|i: int| 0 <= i < 4 implies t[at + 4 + i] == #[trigger] hi[i] by {
        assert(all[4 + i] == hi[i]);
    }
    assert(t.subrange(at, at + 4) =~= lo);
    assert(t.subrange(at + 4, at + 8) =~= hi);
    bytes::lemma_at32(t, at, (v % 0x1_0000_0000) as u32);
    bytes::lemma_at32(t, at + 4, (v / 0x1_0000_0000) as u32);
}

/// Whether these are commands of new segments
spec fn new_segments(cmds: Seq<Seq<u8>>) -> bool {
    forall|k: int|
        0 <= k < cmds.len() ==> sound_command(#[trigger] cmds[k]) && bytes::at32(cmds[k], 0)
            == LC_SEGMENT_64
}

/// Whether no segment command is to be left out
spec fn keeps_segments(m: MachO, keep: Seq<bool>) -> bool {
    forall|k: int|
        0 <= k < m.commands.len() && (#[trigger] m.commands@[k]).cmd == LC_SEGMENT_64 ==> keep[k]
}

/// The written load commands are sound, and no code signature is among them.
proof fn lemma_written_sound(m: MachO, at: int, ins: Inserted, keep: Seq<bool>, i: int)
    requires
        well_read(m),
        0 <= at < m.commands.len(),
        m.commands@[at].cmd == LC_SEGMENT_64,
        new_segments(ins.commands),
        0 <= i <= m.commands.len(),
    ensures
        all_sound(m.commands_upto(at, ins, keep, i)),
        forall|k: int|
            0 <= k < m.commands_upto(at, ins, keep, i).len() ==> bytes::at32(
                #[trigger] m.commands_upto(at, ins, keep, i)[k],
                0,
            ) != LC_CODE_SIGNATURE,
    decreases i,
{
    if i > 0 {
        lemma_written_sound(m, at, ins, keep, i - 1);
        let c = m.commands@[i - 1];
        lemma_olds(m, i - 1);
        lemma_shifted(c.cmd, c.bytes@, ins.payload.len() as u64);
        if i - 1 == at {
            lemma_placed(c.bytes@, ins.linkedit);
        }
        let before = m.commands_upto(at, ins, keep, i - 1);
        let after = m.commands_upto(at, ins, keep, i);
        assert forall|k: int| 0 <= k < after.len() implies sound_command(#[trigger] after[k])
            && bytes::at32(after[k], 0) != LC_CODE_SIGNATURE by {
            if k < before.len() {
                assert(after[k] == before[k]);
            } else if i - 1 == at && k < before.len() + ins.commands.len() {
                assert(after[k] == ins.commands[k - before.len()]);
            }
        }
    }
}

/// The segments among the written load commands: the new ones stand in front
/// of `__LINKEDIT`'s, and all others are as they were.
proof fn lemma_written_segments(m: MachO, at: int, ins: Inserted, keep: Seq<bool>, i: int)
    requires
        well_read(m),
        0 <= at < m.commands.len(),
        m.commands@[at].cmd == LC_SEGMENT_64,
        new_segments(ins.commands),
        keeps_segments(m, keep),
        0 <= i <= m.commands.len(),
    ensures
        i <= at ==> segments_in(m.commands_upto(at, ins, keep, i)) == segments_in(olds(m).take(i)),
        i > at ==> segments_in(olds(m).take(i)).len() >= segments_in(olds(m).take(at)).len() + 1
            && segments_in(m.commands_upto(at, ins, keep, i)) == (segments_in(olds(m).take(at))
            + ins.commands).push(super::placed(olds(m)[at], ins.linkedit)) + segments_in(
            olds(m).take(i),
        ).skip(segments_in(olds(m).take(at)).len() as int + 1),
    decreases i,
{
    if i == 0 {
        assert(olds(m).take(0) =~= Seq::empty());
    } else {
        lemma_written_segments(m, at, ins, keep, i - 1);
        let c = m.commands@[i - 1];
        let was = olds(m);
        lemma_olds(m, i - 1);
        lemma_shifted(c.cmd, c.bytes@, ins.payload.len() as u64);
        assert(was.take(i) =~= was.take(i - 1).push(c.bytes@));
        lemma_segments_push(was.take(i - 1), c.bytes@);
        let before = m.commands_upto(at, ins, keep, i - 1);
        let front = segments_in(was.take(at));
        let past = front.len() as int + 1;
        if i - 1 == at {
            lemma_placed(c.bytes@, ins.linkedit);
            lemma_segments_add(before, ins.commands);
            lemma_segments_push(before + ins.commands, super::placed(c.bytes@, ins.linkedit));
            assert(segments_in(was.take(i)).skip(past) =~= Seq::empty());
            let all = (front + ins.commands).push(super::placed(was[at], ins.linkedit));
            assert(all + Seq::<Seq<u8>>::empty() =~= all);
        } else {
            lemma_segments_push(before, super::shifted(c.cmd, c.bytes@, ins.payload.len() as u64));
            if i - 1 > at && c.cmd == LC_SEGMENT_64 {
                let more = segments_in(was.take(i - 1));
                assert(more.push(c.bytes@).skip(past) =~= more.skip(past).push(c.bytes@));
                let all = (front + ins.commands).push(super::placed(was[at], ins.linkedit));
                assert(all + more.skip(past).push(c.bytes@) =~= (all + more.skip(past)).push(c.bytes@));
            }
        }
    }
}

/// A segment's number is how many segment commands come before its own.
proof fn lemma_place_of(data: Seq<u8>, n: int, p: int)
    requires
        0 <= p < macho::segment_commands(data, n).len(),
    ensures
        macho::segment_commands(data, macho::segment_commands(data, n)[p]).len() == p,
        0 <= macho::segment_commands(data, n)[p] < n,
        macho::is_segment(data, macho::segment_commands(data, n)[p]),
    decreases n,
{
    if n > 0 {
        let before = macho::segment_commands(data, n - 1);
        if p < before.len() {
            lemma_place_of(data, n - 1, p);
        }
    }
}

/// Whether an insertion in front of `linkedit` fits the file: the load
/// commands stand in front of all contents, and the patches behind them
spec fn fits(
    m: MachO,
    linkedit: Segment,
    ins: Inserted,
    keep: Seq<bool>,
    patches: Seq<(u64, u32)>,
) -> bool {
    let end = 32 + m.head_with(linkedit, ins, keep).len();
    &&& end <= linkedit.fileoff
    &&& m.head_with(linkedit, ins, keep).len() <= u32::MAX
    &&& 32 + m.header.sizeofcmds <= linkedit.fileoff
    &&& linkedit.fileoff + ins.linkedit.filesize <= m.data@.len()
    &&& m.all_patchable(patches, linkedit.fileoff as int)
    &&& forall|i: int|
        0 <= i < patches.len() ==> m.offset_of((#[trigger] patches[i]).0).unwrap() >= end
}

proof fn lemma_count(cmds: Seq<Seq<u8>>)
    requires
        all_sound(cmds),
    ensures
        8 * cmds.len() <= super::joined(cmds).len(),
    decreases cmds.len(),
{
    if cmds.len() > 0 {
        assert(all_sound(cmds.drop_last()));
        lemma_count(cmds.drop_last());
        assert(sound_command(cmds[cmds.len() - 1]));
    }
}

/// The header and the load commands before the text is patched
proof fn lemma_headed(m: MachO, limit: int, head: Seq<u8>, count: u32)
    requires
        32 + head.len() <= limit <= m.data@.len(),
        head.len() <= u32::MAX,
    ensures
        ({
            let headed = m.with_head(limit, head, count as int);
            &&& headed.len() == limit
            &&& headed.subrange(0, 16) == m.data@.subrange(0, 16)
            &&& headed.subrange(16, 20) == bytes::le32(count)
            &&& headed.subrange(20, 24) == bytes::le32(head.len() as u32)
            &&& headed.subrange(24, 32) == m.data@.subrange(24, 32)
            &&& headed.subrange(32, 32 + head.len() as int) == head
        }),
{
    let headed = m.with_head(limit, head, count as int);
    assert(headed.subrange(0, 16) =~= m.data@.subrange(0, 16));
    assert(headed.subrange(16, 20) =~= bytes::le32(count));
    assert(headed.subrange(20, 24) =~= bytes::le32(head.len() as u32));
    assert(headed.subrange(24, 32) =~= m.data@.subrange(24, 32));
    assert(headed.subrange(32, 32 + head.len() as int) =~= head);
}

/// The written image: its header, its load commands, and behind the text the
/// new contents and what is left of `__LINKEDIT`
proof fn lemma_image(
    m: MachO,
    linkedit: Segment,
    ins: Inserted,
    keep: Seq<bool>,
    patches: Seq<(u64, u32)>,
)
    requires
        fits(m, linkedit, ins, keep, patches),
        all_sound(m.new_commands(linkedit.cmd_index as int, ins, keep)),
    ensures
        ({
            let out = m.image_with(linkedit, ins, keep, patches);
            let cmds = m.new_commands(linkedit.cmd_index as int, ins, keep);
            &&& holds_commands(out, cmds)
            &&& bytes::at32(out, 16) == cmds.len()
            &&& bytes::at32(out, 20) == super::joined(cmds).len()
            &&& out.subrange(0, 16) == m.data@.subrange(0, 16)
            &&& out.subrange(24, 32) == m.data@.subrange(24, 32)
            &&& out.len() == linkedit.fileoff + ins.payload.len() + ins.linkedit.filesize
            &&& out.subrange(linkedit.fileoff as int, linkedit.fileoff + ins.payload.len())
                == ins.payload
            &&& out.skip(linkedit.fileoff + ins.payload.len()) == m.data@.subrange(
                linkedit.fileoff as int,
                linkedit.fileoff + ins.linkedit.filesize,
            )
        }),
{
    let limit = linkedit.fileoff as int;
    let cmds = m.new_commands(linkedit.cmd_index as int, ins, keep);
    let head = super::joined(cmds);
    let headed = m.with_head(limit, head, cmds.len() as int);
    let text = m.patched(headed, patches, patches.len() as int);
    let out = m.image_with(linkedit, ins, keep, patches);
    lemma_count(cmds);
    lemma_headed(m, limit, head, cmds.len() as u32);
    super::lemma_patched_len(m, headed, patches, patches.len() as int);
    let end = 32 + head.len() as int;
    assert(out =~= text + ins.payload + m.data@.subrange(limit, limit + ins.linkedit.filesize));
    assert forall|i: int| 0 <= i < end implies #[trigger] out[i] == headed[i] by {
        super::lemma_patched_stays(m, headed, patches, patches.len() as int, i);
        assert(out[i] == text[i]);
    }
    lemma_same_part(out, headed, end, 0, 16);
    lemma_same_part(out, headed, end, 16, 20);
    lemma_same_part(out, headed, end, 20, 24);
    lemma_same_part(out, headed, end, 24, 32);
    lemma_same_part(out, headed, end, 32, end);
    bytes::lemma_at32(out, 16, cmds.len() as u32);
    bytes::lemma_at32(out, 20, head.len() as u32);
    assert(out.subrange(limit, limit + ins.payload.len()) =~= ins.payload);
    assert(out.skip(limit + ins.payload.len()) =~= m.data@.subrange(
        limit,
        limit + ins.linkedit.filesize,
    ));
}

proof fn lemma_same_part(a: Seq<u8>, b: Seq<u8>, end: int, i: int, j: int)
    requires
        0 <= i <= j <= end,
        end <= a.len(),
        end <= b.len(),
        forall|k: int| 0 <= k < end ==> #[trigger] a[k] == b[k],
    ensures
        a.subrange(i, j) == b.subrange(i, j),
{
    assert(a.subrange(i, j) =~= b.subrange(i, j));
}

/// Whether two segments are the same but for their commands' numbers
pub open spec fn alike(a: Segment, b: Segment) -> bool {
    &&& a.name@ == b.name@
    &&& a.vmaddr == b.vmaddr
    &&& a.vmsize == b.vmsize
    &&& a.fileoff == b.fileoff
    &&& a.filesize == b.filesize
    &&& same_rights(a, b)
}

/// Whether two segments have the same rights, flags and sections
pub open spec fn same_rights(a: Segment, b: Segment) -> bool {
    &&& a.maxprot == b.maxprot
    &&& a.initprot == b.initprot
    &&& a.flags == b.flags
    &&& a.sections.len() == b.sections.len()
    &&& forall|k: int|
        0 <= k < a.sections.len() ==> same_section(#[trigger] a.sections@[k], b.sections@[k])
}

pub open spec fn same_section(a: Section, b: Section) -> bool {
    &&& a.name@ == b.name@
    &&& a.segname@ == b.segname@
    &&& a.addr == b.addr
    &&& a.size == b.size
    &&& a.offset == b.offset
    &&& a.align == b.align
    &&& a.flags == b.flags
}

proof fn lemma_alike(a: Segment, i: int, b: Segment, j: int, c: Seq<u8>)
    requires
        a.reads(i, c),
        b.reads(j, c),
    ensures
        alike(a, b),
{
    assert forall|k: int| 0 <= k < a.sections.len() implies same_section(
        #[trigger] a.sections@[k],
        b.sections@[k],
    ) by {
        assert(a.sections@[k].reads(c, 72 + 80 * k));
        assert(b.sections@[k].reads(c, 72 + 80 * k));
    }
}

/// A segment in another place is the same but for the place.
proof fn lemma_replaced(a: Segment, i: int, b: Segment, j: int, c: Seq<u8>, p: Place)
    requires
        sound_command(c),
        bytes::at32(c, 0) == LC_SEGMENT_64,
        a.reads(i, super::placed(c, p)),
        b.reads(j, c),
    ensures
        a.name@ == b.name@,
        same_rights(a, b),
        a.vmaddr == p.vmaddr,
        a.vmsize == p.vmsize,
        a.fileoff == p.fileoff,
        a.filesize == p.filesize,
{
    let t = super::placed(c, p);
    lemma_placed(c, p);
    assert(t.subrange(8, 24) =~= c.subrange(8, 24));
    assert forall|at: int| 56 <= at && at + 4 <= c.len() implies #[trigger] bytes::at32(t, at)
        == bytes::at32(c, at) by {
        assert(t.subrange(at, at + 4) =~= c.subrange(at, at + 4));
        lemma_same_number(t, at, c, at);
    }
    assert(bytes::at32(t, 56) == bytes::at32(c, 56));
    assert(bytes::at32(t, 60) == bytes::at32(c, 60));
    assert(bytes::at32(t, 64) == bytes::at32(c, 64));
    assert(bytes::at32(t, 68) == bytes::at32(c, 68));
    assert forall|k: int| 0 <= k < a.sections.len() implies same_section(
        #[trigger] a.sections@[k],
        b.sections@[k],
    ) by {
        let at = 72 + 80 * k;
        assert(at + 80 <= c.len());
        assert(a.sections@[k].reads(t, at));
        assert(b.sections@[k].reads(c, at));
        assert(t.subrange(at, at + 16) =~= c.subrange(at, at + 16));
        assert(t.subrange(at + 16, at + 32) =~= c.subrange(at + 16, at + 32));
        assert(bytes::at32(t, at + 32) == bytes::at32(c, at + 32));
        assert(bytes::at32(t, at + 36) == bytes::at32(c, at + 36));
        assert(bytes::at32(t, at + 40) == bytes::at32(c, at + 40));
        assert(bytes::at32(t, at + 44) == bytes::at32(c, at + 44));
        assert(bytes::at32(t, at + 48) == bytes::at32(c, at + 48));
        assert(bytes::at32(t, at + 52) == bytes::at32(c, at + 52));
        assert(bytes::at32(t, at + 64) == bytes::at32(c, at + 64));
    }
}

/// Whether `n` has the segments of `m`, with those of an insertion in front
/// of number `p`, which the insertion has moved
pub open spec fn stands_before(n: MachO, m: MachO, p: int, ins: Inserted) -> bool {
    let new = ins.commands.len() as int;
    &&& n.segments.len() == m.segments.len() + new
    &&& forall|j: int| 0 <= j < p ==> alike(#[trigger] n.segments@[j], m.segments@[j])
    &&& forall|j: int|
        p <= j < p + new ==> (#[trigger] n.segments@[j]).reads(
            n.segments@[j].cmd_index as int,
            ins.commands[j - p],
        )
    &&& n.segments@[p + new].name@ == m.segments@[p].name@
    &&& same_rights(n.segments@[p + new], m.segments@[p])
    &&& n.segments@[p + new].vmaddr == ins.linkedit.vmaddr
    &&& n.segments@[p + new].vmsize == ins.linkedit.vmsize
    &&& n.segments@[p + new].fileoff == ins.linkedit.fileoff
    &&& n.segments@[p + new].filesize == ins.linkedit.filesize
    &&& forall|j: int|
        p + new < j < n.segments.len() ==> alike(#[trigger] n.segments@[j], m.segments@[j - new])
}

/// Whether an insertion goes in front of segment `p` of `m`
spec fn goes_before(
    m: MachO,
    p: int,
    ins: Inserted,
    keep: Seq<bool>,
    patches: Seq<(u64, u32)>,
) -> bool {
    &&& well_read(m)
    &&& 0 <= p < m.segments.len()
    &&& new_segments(ins.commands)
    &&& keeps_segments(m, keep)
    &&& fits(m, m.segments@[p], ins, keep, patches)
}

/// A segment's own load command
proof fn lemma_own_command(m: MachO, p: int)
    requires
        well_read(m),
        0 <= p < m.segments.len(),
    ensures
        0 <= m.segments@[p].cmd_index < m.commands.len(),
        m.commands@[m.segments@[p].cmd_index as int].cmd == LC_SEGMENT_64,
        segments_in(olds(m).take(m.segments@[p].cmd_index as int)).len() == p,
{
    let data = m.data@;
    let count = bytes::at32(data, 16) as int;
    assert(m.segments@[p].reads(
        macho::segment_commands(data, count)[p],
        macho::command_bytes(data, macho::segment_commands(data, count)[p]),
    ));
    lemma_place_of(data, count, p);
    lemma_old_commands(m);
    lemma_segment_commands(data, olds(m), m.segments@[p].cmd_index as int);
}

proof fn lemma_old_commands(m: MachO)
    requires
        well_read(m),
    ensures
        forall|k: int|
            0 <= k < olds(m).len() ==> #[trigger] macho::command_bytes(m.data@, k) == olds(m)[k]
                && bytes::at32(m.data@, macho::command_at(m.data@, k)) == bytes::at32(olds(m)[k], 0),
{
    assert forall|k: int| 0 <= k < olds(m).len() implies #[trigger] macho::command_bytes(m.data@, k)
        == olds(m)[k] && bytes::at32(m.data@, macho::command_at(m.data@, k)) == bytes::at32(
        olds(m)[k],
        0,
    ) by {
        lemma_olds(m, k);
        assert(m.commands@[k].cmd == bytes::at32(m.data@, macho::command_at(m.data@, k)));
    }
}

/// The reader takes the image, and takes its load commands as they were
/// written.
proof fn lemma_taken(m: MachO, p: int, ins: Inserted, keep: Seq<bool>, patches: Seq<(u64, u32)>)
    requires
        goes_before(m, p, ins, keep, patches),
    ensures
        ({
            let linkedit = m.segments@[p];
            let out = m.image_with(linkedit, ins, keep, patches);
            let cmds = m.new_commands(linkedit.cmd_index as int, ins, keep);
            &&& macho::image_ok(out)
            &&& bytes::at32(out, 16) == cmds.len()
            &&& forall|k: int|
                0 <= k < cmds.len() ==> #[trigger] macho::command_bytes(out, k) == cmds[k]
                    && bytes::at32(out, macho::command_at(out, k)) == bytes::at32(cmds[k], 0)
                    && bytes::at32(cmds[k], 0) != LC_CODE_SIGNATURE
        }),
{
    let linkedit = m.segments@[p];
    let at = linkedit.cmd_index as int;
    let out = m.image_with(linkedit, ins, keep, patches);
    let cmds = m.new_commands(at, ins, keep);
    lemma_own_command(m, p);
    lemma_written_sound(m, at, ins, keep, m.commands.len() as int);
    lemma_image(m, linkedit, ins, keep, patches);
    assert forall|i: int| 0 <= i <= 12 implies #[trigger] bytes::at32(out, i) == bytes::at32(
        m.data@,
        i,
    ) by {
        assert(out.subrange(i, i + 4) =~= out.subrange(0, 16).subrange(i, i + 4));
        assert(m.data@.subrange(i, i + 4) =~= m.data@.subrange(0, 16).subrange(i, i + 4));
        lemma_same_number(out, i, m.data@, i);
    }
    assert(bytes::at32(out, 0) == bytes::at32(m.data@, 0));
    assert(bytes::at32(out, 4) == bytes::at32(m.data@, 4));
    assert(bytes::at32(out, 12) == bytes::at32(m.data@, 12));
    assert forall|k: int| 0 <= k < cmds.len() implies macho::command_ok(out, k)
        && #[trigger] macho::command_bytes(out, k) == cmds[k] && bytes::at32(
        out,
        macho::command_at(out, k),
    ) == bytes::at32(cmds[k], 0) && bytes::at32(cmds[k], 0) != LC_CODE_SIGNATURE by {
        lemma_command(out, cmds, k);
    }
    assert forall|k: int| 0 <= k < bytes::at32(out, 16) implies macho::command_ok(out, k) by {
        assert(macho::command_bytes(out, k) == cmds[k]);
    }
}

proof fn lemma_no_command(s: Seq<macho::Command>, cmd: u32, i: int)
    requires
        0 <= i,
        forall|k: int| 0 <= k < s.len() ==> (#[trigger] s[k]).cmd != cmd,
    ensures
        macho::command_from(s, cmd, i) is None,
    decreases s.len() - i,
{
    if i < s.len() {
        lemma_no_command(s, cmd, i + 1);
    }
}

/// What a reader of the image finds: no signature, and the new segments in
/// front of number `p`
proof fn lemma_found(
    m: MachO,
    n: MachO,
    p: int,
    ins: Inserted,
    keep: Seq<bool>,
    patches: Seq<(u64, u32)>,
)
    requires
        goes_before(m, p, ins, keep, patches),
        n.reads(m.image_with(m.segments@[p], ins, keep, patches)),
    ensures
        n.command_index(LC_CODE_SIGNATURE) is None,
        stands_before(n, m, p, ins),
{
    let linkedit = m.segments@[p];
    let at = linkedit.cmd_index as int;
    let out = m.image_with(linkedit, ins, keep, patches);
    let cmds = m.new_commands(at, ins, keep);
    let new = ins.commands.len() as int;
    lemma_taken(m, p, ins, keep, patches);
    assert forall|k: int| 0 <= k < n.commands.len() implies (#[trigger] n.commands@[k]).cmd
        != LC_CODE_SIGNATURE by {
        assert(macho::command_bytes(out, k) == cmds[k]);
    }
    lemma_no_command(n.commands@, LC_CODE_SIGNATURE, 0);
    lemma_own_command(m, p);
    lemma_old_commands(m);
    lemma_segment_commands(m.data@, olds(m), m.commands.len() as int);
    lemma_segment_commands(out, cmds, cmds.len() as int);
    assert(cmds.take(cmds.len() as int) =~= cmds);
    assert(olds(m).take(m.commands.len() as int) =~= olds(m));
    lemma_written_segments(m, at, ins, keep, m.commands.len() as int);
    let then = segments_in(cmds);
    let was = segments_in(olds(m));
    let front = segments_in(olds(m).take(at));
    assert(then == (front + ins.commands).push(super::placed(olds(m)[at], ins.linkedit)) + was.skip(
        p + 1,
    ));
    lemma_front(olds(m), at);
    assert forall|j: int| 0 <= j < n.segments.len() implies (#[trigger] n.segments@[j]).reads(
        n.segments@[j].cmd_index as int,
        then[j],
    ) by {
        let c = macho::segment_commands(out, cmds.len() as int)[j];
        assert(cmds[c] == then[j]);
        assert(macho::command_bytes(out, c) == cmds[c]);
    }
    assert forall|j: int| 0 <= j < m.segments.len() implies (#[trigger] m.segments@[j]).reads(
        m.segments@[j].cmd_index as int,
        was[j],
    ) by {
        let c = macho::segment_commands(m.data@, m.commands.len() as int)[j];
        assert(olds(m)[c] == was[j]);
        assert(macho::command_bytes(m.data@, c) == olds(m)[c]);
    }
    assert forall|j: int| 0 <= j < p implies alike(#[trigger] n.segments@[j], m.segments@[j]) by {
        assert(then[j] == front[j]);
        assert(m.segments@[j].reads(m.segments@[j].cmd_index as int, was[j]));
        lemma_alike(
            n.segments@[j],
            n.segments@[j].cmd_index as int,
            m.segments@[j],
            m.segments@[j].cmd_index as int,
            then[j],
        );
    }
    assert forall|j: int| p <= j < p + new implies (#[trigger] n.segments@[j]).reads(
        n.segments@[j].cmd_index as int,
        ins.commands[j - p],
    ) by {
        assert(then[j] == ins.commands[j - p]);
    }
    assert forall|j: int| p + new < j < n.segments.len() implies alike(
        #[trigger] n.segments@[j],
        m.segments@[j - new],
    ) by {
        assert(then[j] == was.skip(p + 1)[j - p - new - 1]);
        assert(m.segments@[j - new].reads(m.segments@[j - new].cmd_index as int, was[j - new]));
        lemma_alike(
            n.segments@[j],
            n.segments@[j].cmd_index as int,
            m.segments@[j - new],
            m.segments@[j - new].cmd_index as int,
            then[j],
        );
    }
    lemma_olds(m, at);
    assert(then[p + new] == super::placed(olds(m)[at], ins.linkedit));
    assert(m.segments@[p].reads(m.segments@[p].cmd_index as int, was[p]));
    lemma_replaced(
        n.segments@[p + new],
        n.segments@[p + new].cmd_index as int,
        m.segments@[p],
        m.segments@[p].cmd_index as int,
        olds(m)[at],
        ins.linkedit,
    );
}

/// The segments before command `at` come first among all, and its own after
/// them, if it is one.
proof fn lemma_front(cmds: Seq<Seq<u8>>, at: int)
    requires
        0 <= at < cmds.len(),
        bytes::at32(cmds[at], 0) == LC_SEGMENT_64,
    ensures
        segments_in(cmds.take(at)).len() < segments_in(cmds).len(),
        forall|j: int|
            0 <= j < segments_in(cmds.take(at)).len() ==> #[trigger] segments_in(cmds)[j]
                == segments_in(cmds.take(at))[j],
        segments_in(cmds)[segments_in(cmds.take(at)).len() as int] == cmds[at],
    decreases cmds.len(),
{
    if at == cmds.len() - 1 {
        assert(cmds.take(at) =~= cmds.drop_last());
    } else {
        let less = cmds.drop_last();
        lemma_front(less, at);
        assert(less.take(at) =~= cmds.take(at));
        assert forall|j: int| 0 <= j < segments_in(less).len() implies #[trigger] segments_in(cmds)[j]
            == segments_in(less)[j] by {}
    }
}

/// Whether a new segment lies at the address, or `__LINKEDIT` where it is now
pub open spec fn hidden(ins: Inserted, addr: u64) -> bool {
    ||| ins.linkedit.vmaddr <= addr < ins.linkedit.vmaddr + ins.linkedit.vmsize
    ||| exists|k: int|
        0 <= k < ins.commands.len() && bytes::at64(#[trigger] ins.commands[k], 24) <= addr
            < bytes::at64(ins.commands[k], 24) + bytes::at64(ins.commands[k], 32)
}

/// No new segment covers the address.
proof fn lemma_uncovered(m: MachO, n: MachO, p: int, ins: Inserted, addr: u64, j: int)
    requires
        stands_before(n, m, p, ins),
        0 <= p < m.segments.len(),
        !hidden(ins, addr),
        p <= j <= p + ins.commands.len(),
    ensures
        macho::covering_from(n.segments@, addr, j) == macho::covering_from(
            n.segments@,
            addr,
            p + ins.commands.len() + 1,
        ),
    decreases p + ins.commands.len() - j,
{
    if j < p + ins.commands.len() {
        assert(n.segments@[j].reads(n.segments@[j].cmd_index as int, ins.commands[j - p]));
        assert(!n.segments@[j].covers(addr));
        lemma_uncovered(m, n, p, ins, addr, j + 1);
    }
}

/// Behind the new segments all are as they were, further on.
proof fn lemma_covered_behind(m: MachO, n: MachO, p: int, ins: Inserted, addr: u64, i: int)
    requires
        stands_before(n, m, p, ins),
        0 <= p < i,
    ensures
        macho::covering_from(n.segments@, addr, i + ins.commands.len()) == (
        match macho::covering_from(m.segments@, addr, i) {
            Some(q) => Some(q + ins.commands.len()),
            None => None,
        }),
    decreases m.segments.len() - i,
{
    if i < m.segments.len() {
        assert(alike(n.segments@[i + ins.commands.len()], m.segments@[i]));
        lemma_covered_behind(m, n, p, ins, addr, i + 1);
    }
}

/// An address that no new segment hides is found in the segment it was in.
proof fn lemma_covered(m: MachO, n: MachO, p: int, ins: Inserted, addr: u64, i: int)
    requires
        stands_before(n, m, p, ins),
        0 <= i <= p < m.segments.len(),
        macho::covering_from(m.segments@, addr, i) matches Some(q) && q != p && (q < p || !hidden(
            ins,
            addr,
        )),
    ensures
        ({
            let q = macho::covering_from(m.segments@, addr, i).unwrap();
            macho::covering_from(n.segments@, addr, i) == Some(
                if q < p {
                    q
                } else {
                    q + ins.commands.len()
                },
            )
        }),
    decreases p - i,
{
    macho::lemma_covering(m.segments@, addr, i);
    if i < p {
        assert(alike(n.segments@[i], m.segments@[i]));
        if !(m.segments@[i].filesize > 0 && m.segments@[i].covers(addr)) {
            lemma_covered(m, n, p, ins, addr, i + 1);
        }
    } else {
        macho::lemma_covering(m.segments@, addr, p + 1);
        lemma_uncovered(m, n, p, ins, addr, p);
        lemma_covered_behind(m, n, p, ins, addr, p + 1);
    }
}

proof fn lemma_nul_at(b: Seq<u8>, n: nat)
    requires
        b.len() <= n,
        forall|i: int| 0 <= i < b.len() ==> #[trigger] b[i] != 0,
    ensures
        macho::nul_at(bytes::padded(b, n)) == b.len(),
    decreases b.len(),
{
    let t = bytes::padded(b, n);
    if b.len() > 0 {
        assert(t[0] == b[0]);
        lemma_nul_at(b.skip(1), (n - 1) as nat);
        assert(t.skip(1) =~= bytes::padded(b.skip(1), (n - 1) as nat));
    }
}

/// A short name reads back from its field.
proof fn lemma_name(name: Seq<char>)
    requires
        utf8::is_ascii_chars(name),
        name.len() <= 16,
        forall|i: int| 0 <= i < name.len() ==> #[trigger] name[i] as u8 != 0,
    ensures
        utf8::encode_utf8(name).len() == name.len(),
        macho::c_text(super::name_field(utf8::encode_utf8(name))) == name,
{
    let b = utf8::encode_utf8(name);
    utf8::is_ascii_chars_encode_utf8(name);
    assert forall|i: int| 0 <= i < b.len() implies #[trigger] b[i] != 0 by {
        assert(name[i] as u8 == b[i]);
    }
    lemma_nul_at(b, 16);
    assert(bytes::padded(b, 16).take(b.len() as int) =~= b);
    utf8::encode_utf8_valid_utf8(name);
    utf8::encode_utf8_decode_utf8(name);
}

proof fn lemma_names()
    ensures
        utf8::encode_utf8("__STUBD"@).len() == 7,
        utf8::encode_utf8("__STUB"@).len() == 6,
        utf8::encode_utf8("__data"@).len() == 6,
        utf8::encode_utf8("__text"@).len() == 6,
        macho::c_text(super::name_field(utf8::encode_utf8("__STUBD"@))) == "__STUBD"@,
        macho::c_text(super::name_field(utf8::encode_utf8("__STUB"@))) == "__STUB"@,
{
    reveal_strlit("__STUBD");
    reveal_strlit("__STUB");
    reveal_strlit("__data");
    reveal_strlit("__text");
    lemma_name("__STUBD"@);
    lemma_name("__STUB"@);
    lemma_name("__data"@);
    lemma_name("__text"@);
}

/// What a new segment's command says
proof fn lemma_prefix(name: Seq<u8>, p: Place, prot: u32, sections: u32, rest: Seq<u8>)
    requires
        name.len() <= 16,
        sections <= 1,
        rest.len() == 80 * sections,
    ensures
        ({
            let t = super::segment_prefix(name, p, prot, sections) + rest;
            &&& sound_command(t)
            &&& bytes::at32(t, 0) == LC_SEGMENT_64
            &&& t.subrange(8, 24) == super::name_field(name)
            &&& bytes::at64(t, 24) == p.vmaddr
            &&& bytes::at64(t, 32) == p.vmsize
            &&& bytes::at64(t, 40) == p.fileoff
            &&& bytes::at64(t, 48) == p.filesize
        }),
{
    let t = super::segment_prefix(name, p, prot, sections) + rest;
    assert(t.len() == 72 + rest.len());
    assert(t.subrange(0, 4) =~= bytes::le32(LC_SEGMENT_64));
    assert(t.subrange(4, 8) =~= bytes::le32((72 + 80 * sections) as u32));
    assert(t.subrange(8, 24) =~= super::name_field(name));
    assert(t.subrange(64, 68) =~= bytes::le32(sections));
    bytes::lemma_at32(t, 0, LC_SEGMENT_64);
    bytes::lemma_at32(t, 4, (72 + 80 * sections) as u32);
    bytes::lemma_at32(t, 64, sections);
    lemma_long_number(t, 24, p.vmaddr);
    lemma_long_number(t, 32, p.vmsize);
    lemma_long_number(t, 40, p.fileoff);
    lemma_long_number(t, 48, p.filesize);
}

/// Whether the address lies behind all that the load commands may take
spec fn behind_commands(m: MachO, addr: u64) -> bool {
    m.offset_of(addr) matches Some(off) && off >= 32 + m.command_room()
}

/// The address of a word of the text
pub open spec fn is_text_word(m: MachO, addr: u64) -> bool {
    m.text() matches Some(t) && addr % 4 == 0 && t.addr <= addr && addr + 4 <= t.addr + t.size
}

/// Whether the text lies where its section header says, in the file as in
/// memory, behind the load commands and in front of `__LINKEDIT`, segment `p`
pub open spec fn text_in_place(m: MachO, p: int) -> bool {
    m.text() matches Some(t) && {
        &&& 32 + m.header.sizeofcmds <= t.offset
        &&& t.offset + t.size <= m.segments@[p].fileoff
        &&& forall|a: u64| #[trigger]
            is_text_word(m, a) ==> m.covering(a) == m.segment_index("__TEXT"@) && m.offset_of(a)
                == Some(t.offset + (a - t.addr))
    }
}

/// Whether the text is found where it was: its segment is listed in front of
/// `__LINKEDIT`, or nothing new lies in its place
pub open spec fn text_stays(m: MachO, p: int, ins: Inserted) -> bool {
    forall|a: u64| #[trigger]
        is_text_word(m, a) ==> (m.covering(a) matches Some(q) && (q < p || !hidden(ins, a)))
}

/// Whether these are words of the text, no address twice
pub open spec fn patches_text(m: MachO, patches: Seq<(u64, u32)>) -> bool {
    &&& forall|i: int| 0 <= i < patches.len() ==> is_text_word(m, (#[trigger] patches[i]).0)
    &&& forall|i: int, j: int|
        0 <= i < j < patches.len() ==> (#[trigger] patches[i]).0 != (#[trigger] patches[j]).0
}

proof fn lemma_section_index(s: Seq<Section>, name: Seq<char>, i: int)
    requires
        0 <= i,
    ensures
        macho::section_from(s, name, i) matches Some(k) ==> i <= k < s.len(),
    decreases s.len() - i,
{
    if i < s.len() {
        lemma_section_index(s, name, i + 1);
    }
}

/// The text lies behind all that the load commands may take.
proof fn lemma_text_behind(m: MachO, p: int, addr: u64)
    requires
        text_in_place(m, p),
        is_text_word(m, addr),
    ensures
        behind_commands(m, addr),
        m.patchable(addr, m.segments@[p].fileoff as int),
{
    let t = m.text().unwrap();
    lemma_index(m.segments@, "__TEXT"@, 0);
    let i = m.segment_index("__TEXT"@).unwrap();
    lemma_section_index(m.segments@[i].sections@, "__text"@, 0);
    let k = macho::section_from(m.segments@[i].sections@, "__text"@, 0).unwrap();
    assert(m.segments@[i].sections@[k] == t);
    if exists|off: int| m.first_content(off) {
        let first = choose|off: int| m.first_content(off);
        assert(m.first_content(first));
        assert(t.offset >= first);
    }
}

/// Load commands that fit the header fit the file.
proof fn lemma_fits(m: MachO, p: int, ins: Inserted, step: int, patches: Seq<(u64, u32)>)
    requires
        well_read(m),
        m.segment_index("__LINKEDIT"@) == Some(p),
        0 <= p < m.segments.len(),
        m.emittable(),
        new_segments(ins.commands),
        m.fits_after(m.segments@[p], ins, step),
        m.all_patchable(patches, m.segments@[p].fileoff as int),
        ins.linkedit.filesize <= m.segments@[p].filesize,
        forall|i: int|
            0 <= i < patches.len() ==> behind_commands(m, (#[trigger] patches[i]).0),
    ensures
        goes_before(m, p, ins, m.keep_after(step), patches),
{
    let keep = m.keep_after(step);
    assert(keeps_segments(m, keep));
    assert(m.command_room() <= u32::MAX) by {
        if exists|off: int| m.first_content(off) {
            let first = choose|off: int| m.first_content(off);
            assert(m.first_content(first));
        }
    }
    assert forall|i: int| 0 <= i < patches.len() implies m.offset_of(
        (#[trigger] patches[i]).0,
    ).unwrap() >= 32 + m.head_with(m.segments@[p], ins, keep).len() by {
        assert(behind_commands(m, patches[i].0));
    }
}

/// An image with the two new segments, its patches behind the load commands,
/// is an insertion.
proof fn lemma_emitted(
    m: MachO,
    p: int,
    patches: Seq<(u64, u32)>,
    stub_data: Seq<u8>,
    stub_text: Seq<u8>,
    out: Vec<u8>,
) -> (r: (Inserted, int))
    requires
        well_read(m),
        m.segment_index("__LINKEDIT"@) == Some(p),
        m.emittable(),
        m.emits(patches, stub_data, stub_text, Ok(out)),
        forall|i: int|
            0 <= i < patches.len() ==> behind_commands(m, (#[trigger] patches[i]).0),
    ensures
        r.0 == m.data_and_text(
            m.segments@[p],
            m.unsigned_size(m.segments@[p]).unwrap(),
            stub_data,
            stub_text,
        ),
        0 <= p < m.segments.len(),
        m.fits_after(m.segments@[p], r.0, r.1),
        goes_before(m, p, r.0, m.keep_after(r.1), patches),
        out@ == m.image_with(m.segments@[p], r.0, m.keep_after(r.1), patches),
{
    let linkedit = m.segments@[p];
    let kept = m.unsigned_size(linkedit).unwrap();
    let ins = m.data_and_text(linkedit, kept, stub_data, stub_text);
    let step = m.steps_needed(linkedit, ins);
    lemma_index(m.segments@, "__LINKEDIT"@, 0);
    lemma_two_commands(m, linkedit, kept, stub_data, stub_text);
    lemma_fits(m, p, ins, step, patches);
    (ins, step)
}

proof fn lemma_index(s: Seq<Segment>, name: Seq<char>, i: int)
    requires
        0 <= i,
    ensures
        macho::segment_from(s, name, i) matches Some(k) ==> i <= k < s.len() && s[k].name@ == name,
    decreases s.len() - i,
{
    if i < s.len() {
        lemma_index(s, name, i + 1);
    }
}

/// Whether this is the command of a new segment of that name and place
#[verifier::opaque]
spec fn says(c: Seq<u8>, name: Seq<char>, p: Place) -> bool {
    &&& sound_command(c)
    &&& bytes::at32(c, 0) == LC_SEGMENT_64
    &&& macho::c_text(c.subrange(8, 24)) == name
    &&& bytes::at64(c, 24) == p.vmaddr
    &&& bytes::at64(c, 32) == p.vmsize
    &&& bytes::at64(c, 40) == p.fileoff
    &&& bytes::at64(c, 48) == p.filesize
}

proof fn lemma_says(name: Seq<char>, p: Place, prot: u32, sections: u32, rest: Seq<u8>)
    requires
        utf8::encode_utf8(name).len() <= 16,
        macho::c_text(super::name_field(utf8::encode_utf8(name))) == name,
        sections <= 1,
        rest.len() == 80 * sections,
    ensures
        says(super::segment_prefix(utf8::encode_utf8(name), p, prot, sections) + rest, name, p),
{
    reveal(says);
    lemma_prefix(utf8::encode_utf8(name), p, prot, sections, rest);
}

proof fn lemma_section_len(name: Seq<u8>, segname: Seq<u8>, p: Place, flags: u32)
    requires
        name.len() <= 16,
        segname.len() <= 16,
    ensures
        super::section_header(name, segname, p, flags).len() == 80,
{
}

/// New segments' commands are sound.
proof fn lemma_said(cmds: Seq<Seq<u8>>, names: Seq<Seq<char>>, places: Seq<Place>)
    requires
        forall|k: int| 0 <= k < cmds.len() ==> says(#[trigger] cmds[k], names[k], places[k]),
    ensures
        new_segments(cmds),
{
    reveal(says);
}

/// A segment read from such a command has its name and place.
proof fn lemma_read_back(s: Segment, c: Seq<u8>, name: Seq<char>, p: Place)
    requires
        says(c, name, p),
        s.reads(s.cmd_index as int, c),
    ensures
        s.name@ == name,
        s.vmaddr == p.vmaddr,
        s.vmsize == p.vmsize,
        s.fileoff == p.fileoff,
        s.filesize == p.filesize,
{
    reveal(says);
}

/// Where the page of stub data goes: the place of `__LINKEDIT`
pub open spec fn data_place(linkedit: Segment) -> Place {
    Place {
        vmaddr: linkedit.vmaddr,
        vmsize: macho::PAGE,
        fileoff: linkedit.fileoff,
        filesize: macho::PAGE,
    }
}

/// Where the stub text goes: behind the page of data
pub open spec fn text_place(linkedit: Segment, stub_text: Seq<u8>) -> Place {
    let size = super::pages_for(stub_text.len() as int) as u64;
    Place {
        vmaddr: linkedit.vmaddr.wrapping_add(macho::PAGE),
        vmsize: size,
        fileoff: (linkedit.fileoff + macho::PAGE) as u64,
        filesize: size,
    }
}

#[verifier::spinoff_prover]
#[verifier::rlimit(40)]
proof fn lemma_two_commands(
    m: MachO,
    linkedit: Segment,
    kept: u64,
    stub_data: Seq<u8>,
    stub_text: Seq<u8>,
)
    ensures
        ({
            let c = m.data_and_text(linkedit, kept, stub_data, stub_text).commands;
            &&& c.len() == 2
            &&& says(c[0], "__STUBD"@, data_place(linkedit))
            &&& says(c[1], "__STUB"@, text_place(linkedit, stub_text))
            &&& new_segments(c)
        }),
{
    lemma_names();
    let data = data_place(linkedit);
    let text = text_place(linkedit, stub_text);
    lemma_one_command("__STUBD"@, "__data"@, data, macho::VM_PROT_READ | macho::VM_PROT_WRITE, 0);
    lemma_one_command(
        "__STUB"@,
        "__text"@,
        text,
        macho::VM_PROT_READ | macho::VM_PROT_EXECUTE,
        0x8000_0400,
    );
    let c = m.data_and_text(linkedit, kept, stub_data, stub_text).commands;
    lemma_said(c, seq!["__STUBD"@, "__STUB"@], seq![data, text]);
}

/// The command of a new segment that one section fills
proof fn lemma_one_command(name: Seq<char>, section: Seq<char>, p: Place, prot: u32, flags: u32)
    requires
        utf8::encode_utf8(name).len() <= 16,
        utf8::encode_utf8(section).len() <= 16,
        macho::c_text(super::name_field(utf8::encode_utf8(name))) == name,
    ensures
        says(
            super::segment_prefix(utf8::encode_utf8(name), p, prot, 1) + super::section_header(
                utf8::encode_utf8(section),
                utf8::encode_utf8(name),
                p,
                flags,
            ),
            name,
            p,
        ),
{
    let header = super::section_header(
        utf8::encode_utf8(section),
        utf8::encode_utf8(name),
        p,
        flags,
    );
    lemma_section_len(utf8::encode_utf8(section), utf8::encode_utf8(name), p, flags);
    lemma_says(name, p, prot, 1, header);
}

proof fn lemma_pages(n: int)
    requires
        0 <= n,
    ensures
        n <= super::pages_for(n) < n + 0x8000,
{
    let d = (if n < 1 {
        1
    } else {
        n
    }) + macho::PAGE - 1;
    vstd::arithmetic::div_mod::lemma_fundamental_div_mod(d, macho::PAGE as int);
    assert(d / (macho::PAGE as int) * macho::PAGE == macho::PAGE * (d / (macho::PAGE as int)))
        by (nonlinear_arith);
}

proof fn lemma_payload(
    out: Seq<u8>,
    limit: int,
    payload: Seq<u8>,
    stub_data: Seq<u8>,
    stub_text: Seq<u8>,
    size: nat,
)
    requires
        0 <= limit,
        limit + payload.len() <= out.len(),
        out.subrange(limit, limit + payload.len()) == payload,
        payload == bytes::padded(stub_data, macho::PAGE as nat) + bytes::padded(stub_text, size),
        stub_data.len() <= macho::PAGE,
        stub_text.len() <= size,
    ensures
        limit + macho::PAGE + stub_text.len() <= out.len(),
        out.subrange(limit, limit + stub_data.len()) == stub_data,
        out.subrange(limit + macho::PAGE, limit + macho::PAGE + stub_text.len()) == stub_text,
{
    let part = out.subrange(limit, limit + payload.len());
    assert forall|i: int| 0 <= i < payload.len() implies out[limit + i] == #[trigger] payload[i] by {
        assert(part[i] == out[limit + i]);
    }
    assert forall|i: int| 0 <= i < stub_data.len() implies out[limit + i] == #[trigger] stub_data[i] by {
        assert(payload[i] == stub_data[i]);
    }
    assert forall|i: int| 0 <= i < stub_text.len() implies out[limit + macho::PAGE + i]
        == #[trigger] stub_text[i] by {
        assert(payload[macho::PAGE + i] == stub_text[i]);
    }
    assert(out.subrange(limit, limit + stub_data.len()) =~= stub_data);
    assert(out.subrange(limit + macho::PAGE, limit + macho::PAGE + stub_text.len()) =~= stub_text);
}

/// What a reader of the image finds of the text: each patch, and every other
/// word as it was
spec fn text_reads(m: MachO, n: MachO, patches: Seq<(u64, u32)>) -> bool {
    &&& forall|i: int|
        0 <= i < patches.len() ==> n.word_at((#[trigger] patches[i]).0) == Some(patches[i].1)
    &&& forall|a: u64|
        #![trigger is_text_word(m, a)]
        is_text_word(m, a) && (forall|i: int| 0 <= i < patches.len() ==> (#[trigger] patches[i]).0
            != a) ==> n.word_at(a) == m.word_at(a)
}

proof fn lemma_words(
    m: MachO,
    n: MachO,
    p: int,
    ins: Inserted,
    keep: Seq<bool>,
    patches: Seq<(u64, u32)>,
)
    requires
        goes_before(m, p, ins, keep, patches),
        m.head_with(m.segments@[p], ins, keep).len() <= m.command_room(),
        text_in_place(m, p),
        text_stays(m, p, ins),
        patches_text(m, patches),
        n.reads(m.image_with(m.segments@[p], ins, keep, patches)),
    ensures
        text_reads(m, n, patches),
{
    let linkedit = m.segments@[p];
    let limit = linkedit.fileoff as int;
    let at = linkedit.cmd_index as int;
    lemma_found(m, n, p, ins, keep, patches);
    lemma_own_command(m, p);
    lemma_written_sound(m, at, ins, keep, m.commands.len() as int);
    lemma_image(m, linkedit, ins, keep, patches);
    assert forall|i: int| 0 <= i < patches.len() implies n.word_at((#[trigger] patches[i]).0)
        == Some(patches[i].1) by {
        assert(is_text_word(m, patches[i].0));
        lemma_text_behind(m, p, patches[i].0);
        lemma_same_offset(m, n, p, ins, patches[i].0);
        lemma_patch_found(m, p, linkedit, ins, keep, patches, i);
    }
    assert forall|a: u64|
        #![trigger is_text_word(m, a)]
        is_text_word(m, a) && (forall|i: int| 0 <= i < patches.len() ==> (#[trigger] patches[i]).0
            != a) implies n.word_at(a) == m.word_at(a) by {
        lemma_text_behind(m, p, a);
        lemma_same_offset(m, n, p, ins, a);
        lemma_other_word(m, p, linkedit, ins, keep, patches, a);
    }
}

/// Two words of one segment lie as far apart in the file as in memory.
proof fn lemma_words_apart(m: MachO, a: u64, b: u64)
    requires
        a % 4 == 0,
        b % 4 == 0,
        a != b,
        m.covering(a) == m.covering(b),
        m.offset_of(a) is Some,
        m.offset_of(b) is Some,
    ensures
        m.offset_of(a).unwrap() + 4 <= m.offset_of(b).unwrap() || m.offset_of(b).unwrap() + 4
            <= m.offset_of(a).unwrap(),
{
}

proof fn lemma_patch_found(
    m: MachO,
    p: int,
    linkedit: Segment,
    ins: Inserted,
    keep: Seq<bool>,
    patches: Seq<(u64, u32)>,
    i: int,
)
    requires
        text_in_place(m, p),
        linkedit == m.segments@[p],
        patches_text(m, patches),
        linkedit.fileoff <= m.data@.len(),
        m.all_patchable(patches, linkedit.fileoff as int),
        0 <= i < patches.len(),
    ensures
        m.patchable(patches[i].0, linkedit.fileoff as int),
        bytes::at32(
            m.image_with(linkedit, ins, keep, patches),
            m.offset_of(patches[i].0).unwrap(),
        ) == patches[i].1,
{
    let limit = linkedit.fileoff as int;
    assert(m.patchable(patches[i].0, limit));
    assert(is_text_word(m, patches[i].0));
    assert forall|j: int| i < j < patches.len() implies ({
        let a = m.offset_of(patches[i].0).unwrap();
        let b = m.offset_of((#[trigger] patches[j]).0).unwrap();
        a + 4 <= b || b + 4 <= a
    }) by {
        assert(m.patchable(patches[j].0, limit));
        assert(is_text_word(m, patches[j].0));
        lemma_words_apart(m, patches[i].0, patches[j].0);
    }
    super::patched_words_read_back(m, linkedit, ins, keep, patches, i);
}

proof fn lemma_other_word(
    m: MachO,
    p: int,
    linkedit: Segment,
    ins: Inserted,
    keep: Seq<bool>,
    patches: Seq<(u64, u32)>,
    addr: u64,
)
    requires
        text_in_place(m, p),
        linkedit == m.segments@[p],
        patches_text(m, patches),
        linkedit.fileoff <= m.data@.len(),
        m.all_patchable(patches, linkedit.fileoff as int),
        is_text_word(m, addr),
        m.offset_of(addr).unwrap() >= 32 + m.header.sizeofcmds,
        m.offset_of(addr).unwrap() >= 32 + m.head_with(linkedit, ins, keep).len(),
        forall|i: int| 0 <= i < patches.len() ==> (#[trigger] patches[i]).0 != addr,
    ensures
        bytes::at32(m.image_with(linkedit, ins, keep, patches), m.offset_of(addr).unwrap())
            == bytes::at32(m.data@, m.offset_of(addr).unwrap()),
{
    let off = m.offset_of(addr).unwrap();
    lemma_text_behind(m, p, addr);
    assert forall|i: int| 0 <= i < patches.len() implies {
        let other = m.offset_of((#[trigger] patches[i]).0).unwrap();
        off + 4 <= other || other + 4 <= off
    } by {
        assert(m.patchable(patches[i].0, linkedit.fileoff as int));
        assert(is_text_word(m, patches[i].0));
        lemma_words_apart(m, addr, patches[i].0);
    }
    lemma_byte_stays(m, linkedit, ins, keep, patches, off, off);
    lemma_byte_stays(m, linkedit, ins, keep, patches, off, off + 1);
    lemma_byte_stays(m, linkedit, ins, keep, patches, off, off + 2);
    lemma_byte_stays(m, linkedit, ins, keep, patches, off, off + 3);
}

proof fn lemma_byte_stays(
    m: MachO,
    linkedit: Segment,
    ins: Inserted,
    keep: Seq<bool>,
    patches: Seq<(u64, u32)>,
    off: int,
    at: int,
)
    requires
        linkedit.fileoff <= m.data@.len(),
        32 + m.header.sizeofcmds <= off,
        32 + m.head_with(linkedit, ins, keep).len() <= off,
        off <= at < off + 4 <= linkedit.fileoff,
        m.all_patchable(patches, linkedit.fileoff as int),
        forall|i: int|
            0 <= i < patches.len() ==> {
                let other = m.offset_of((#[trigger] patches[i]).0).unwrap();
                off + 4 <= other || other + 4 <= off
            },
    ensures
        m.image_with(linkedit, ins, keep, patches)[at] == m.data@[at],
{
    assert forall|i: int| 0 <= i < patches.len() implies (m.offset_of(
        (#[trigger] patches[i]).0,
    ) matches Some(o) ==> !(o <= at < o + 4)) by {
        assert(m.patchable(patches[i].0, linkedit.fileoff as int));
    }
    super::unpatched_bytes_stay(m, linkedit, ins, keep, patches, at);
}

/// A word of the text keeps its place in the file.
proof fn lemma_same_offset(m: MachO, n: MachO, p: int, ins: Inserted, addr: u64)
    requires
        stands_before(n, m, p, ins),
        0 <= p < m.segments.len(),
        text_in_place(m, p),
        text_stays(m, p, ins),
        is_text_word(m, addr),
    ensures
        n.offset_of(addr) == m.offset_of(addr),
{
    macho::lemma_covering(m.segments@, addr, 0);
    let q = m.covering(addr).unwrap();
    assert(q != p) by {
        if q == p {
            assert(m.offset_of(addr).unwrap() >= m.segments@[p].fileoff);
        }
    }
    lemma_covered(m, n, p, ins, addr, 0);
    if q < p {
        assert(alike(n.segments@[q], m.segments@[q]));
    } else {
        assert(alike(n.segments@[q + ins.commands.len()], m.segments@[q]));
    }
}

/// Patches of the text lie behind the load commands.
proof fn lemma_patches_behind(m: MachO, p: int, patches: Seq<(u64, u32)>)
    requires
        text_in_place(m, p),
        patches_text(m, patches),
    ensures
        forall|i: int|
            0 <= i < patches.len() ==> behind_commands(m, (#[trigger] patches[i]).0),
{
    assert forall|i: int| 0 <= i < patches.len() implies behind_commands(
        m,
        (#[trigger] patches[i]).0,
    ) by {
        lemma_text_behind(m, p, patches[i].0);
    }
}

/// What was emitted reads back: the image parses, and a reader finds no code
/// signature; the segments as they were, with `__STUBD` and `__STUB` right in
/// front of `__LINKEDIT`, in the place that had; in them the stub's data and
/// text; each patch at its address; and every other word of the text as it
/// was.
pub proof fn what_is_emitted_reads_back(
    m: MachO,
    n: MachO,
    p: int,
    patches: Seq<(u64, u32)>,
    stub_data: Seq<u8>,
    stub_text: Seq<u8>,
    out: Vec<u8>,
)
    requires
        well_read(m),
        m.segment_index("__LINKEDIT"@) == Some(p),
        m.emittable(),
        m.data@.len() + stub_text.len() + 0x1_0000 <= usize::MAX,
        m.emits(patches, stub_data, stub_text, Ok(out)),
        text_in_place(m, p),
        text_stays(
            m,
            p,
            m.data_and_text(
                m.segments@[p],
                m.unsigned_size(m.segments@[p]).unwrap(),
                stub_data,
                stub_text,
            ),
        ),
        patches_text(m, patches),
    ensures
        macho::image_ok(out@),
        n.reads(out@) ==> {
            &&& n.command_index(LC_CODE_SIGNATURE) is None
            &&& stands_before(
                n,
                m,
                p,
                m.data_and_text(
                    m.segments@[p],
                    m.unsigned_size(m.segments@[p]).unwrap(),
                    stub_data,
                    stub_text,
                ),
            )
            &&& n.segments@[p].name@ == "__STUBD"@
            &&& n.segments@[p].vmaddr == m.segments@[p].vmaddr
            &&& stub_data.is_prefix_of(out@.skip(n.segments@[p].fileoff as int))
            &&& n.segments@[p + 1].name@ == "__STUB"@
            &&& n.segments@[p + 1].vmaddr == m.segments@[p].vmaddr.wrapping_add(macho::PAGE)
            &&& stub_text.is_prefix_of(out@.skip(n.segments@[p + 1].fileoff as int))
            &&& n.segments@[p + 2].name@ == "__LINKEDIT"@
            &&& forall|i: int|
                0 <= i < patches.len() ==> n.word_at((#[trigger] patches[i]).0) == Some(
                    patches[i].1,
                )
            &&& forall|a: u64|
                #![trigger is_text_word(m, a)]
                is_text_word(m, a) && (forall|i: int|
                    0 <= i < patches.len() ==> (#[trigger] patches[i]).0 != a) ==> n.word_at(a)
                    == m.word_at(a)
        },
{
    lemma_patches_behind(m, p, patches);
    let (ins, step) = lemma_emitted(m, p, patches, stub_data, stub_text, out);
    let keep = m.keep_after(step);
    let linkedit = m.segments@[p];
    lemma_taken(m, p, ins, keep, patches);
    if n.reads(out@) {
        lemma_index(m.segments@, "__LINKEDIT"@, 0);
        lemma_found(m, n, p, ins, keep, patches);
        lemma_two_commands(
            m,
            linkedit,
            m.unsigned_size(linkedit).unwrap(),
            stub_data,
            stub_text,
        );
        lemma_read_back(n.segments@[p], ins.commands[0], "__STUBD"@, data_place(linkedit));
        lemma_read_back(
            n.segments@[p + 1],
            ins.commands[1],
            "__STUB"@,
            text_place(linkedit, stub_text),
        );
        lemma_own_command(m, p);
        lemma_written_sound(m, linkedit.cmd_index as int, ins, keep, m.commands.len() as int);
        lemma_image(m, linkedit, ins, keep, patches);
        lemma_pages(stub_text.len() as int);
        let limit = linkedit.fileoff as int;
        let size = super::pages_for(stub_text.len() as int);
        lemma_payload(out@, limit, ins.payload, stub_data, stub_text, size as nat);
        lemma_begins_with(out@, limit, stub_data);
        lemma_begins_with(out@, limit + macho::PAGE, stub_text);
        lemma_words(m, n, p, ins, keep, patches);
    }
}

proof fn lemma_begins_with(out: Seq<u8>, at: int, what: Seq<u8>)
    requires
        0 <= at,
        at + what.len() <= out.len(),
        out.subrange(at, at + what.len()) == what,
    ensures
        what.is_prefix_of(out.skip(at)),
{
    assert(out.skip(at).subrange(0, what.len() as int) =~= out.subrange(at, at + what.len()));
}

/// An image with the one new segment is an insertion.
proof fn lemma_stub_emitted(
    m: MachO,
    p: int,
    patches: Seq<(u64, u32)>,
    stub_text: Seq<u8>,
    out: Vec<u8>,
) -> (r: (Inserted, int))
    requires
        well_read(m),
        m.segment_index("__LINKEDIT"@) == Some(p),
        m.emittable(),
        m.emits_stub(patches, stub_text, Ok(out)),
        forall|i: int|
            0 <= i < patches.len() ==> behind_commands(m, (#[trigger] patches[i]).0),
    ensures
        r.0 == m.text_alone(
            m.segments@[p],
            m.unsigned_size(m.segments@[p]).unwrap(),
            stub_text,
        ),
        0 <= p < m.segments.len(),
        m.fits_after(m.segments@[p], r.0, r.1),
        goes_before(m, p, r.0, m.keep_after(r.1), patches),
        out@ == m.image_with(m.segments@[p], r.0, m.keep_after(r.1), patches),
        says(r.0.commands[0], "__STUB"@, stub_segment(m.segments@[p], stub_text)),
        r.0.commands.len() == 1,
{
    let linkedit = m.segments@[p];
    let kept = m.unsigned_size(linkedit).unwrap();
    let ins = m.text_alone(linkedit, kept, stub_text);
    let step = m.steps_needed(linkedit, ins);
    let place = stub_segment(linkedit, stub_text);
    lemma_index(m.segments@, "__LINKEDIT"@, 0);
    lemma_names();
    let prot = macho::VM_PROT_READ | macho::VM_PROT_EXECUTE;
    let prefix = super::segment_prefix(utf8::encode_utf8("__STUB"@), place, prot, 0);
    lemma_says("__STUB"@, place, prot, 0, Seq::empty());
    assert(prefix + Seq::<u8>::empty() =~= prefix);
    lemma_said(ins.commands, seq!["__STUB"@], seq![place]);
    lemma_fits(m, p, ins, step, patches);
    (ins, step)
}

/// Where a lone stub text goes: the place of `__LINKEDIT`
pub open spec fn stub_segment(linkedit: Segment, stub_text: Seq<u8>) -> Place {
    let size = super::pages_for(stub_text.len() as int) as u64;
    Place { vmaddr: linkedit.vmaddr, vmsize: size, fileoff: linkedit.fileoff, filesize: size }
}

/// What was rewritten reads back: the image parses, and a reader finds no code
/// signature; the segments as they were, with `__STUB` right in front of
/// `__LINKEDIT`, in the place that had; in it the stub's text; each patch at
/// its address; and every other word of the text as it was.
pub proof fn what_is_rewritten_reads_back(
    m: MachO,
    n: MachO,
    p: int,
    patches: Seq<(u64, u32)>,
    stub_text: Seq<u8>,
    out: Vec<u8>,
)
    requires
        well_read(m),
        m.segment_index("__LINKEDIT"@) == Some(p),
        m.emittable(),
        m.data@.len() + stub_text.len() + 0x1_0000 <= usize::MAX,
        m.emits_stub(patches, stub_text, Ok(out)),
        text_in_place(m, p),
        text_stays(
            m,
            p,
            m.text_alone(m.segments@[p], m.unsigned_size(m.segments@[p]).unwrap(), stub_text),
        ),
        patches_text(m, patches),
    ensures
        macho::image_ok(out@),
        n.reads(out@) ==> {
            &&& n.command_index(LC_CODE_SIGNATURE) is None
            &&& stands_before(
                n,
                m,
                p,
                m.text_alone(m.segments@[p], m.unsigned_size(m.segments@[p]).unwrap(), stub_text),
            )
            &&& n.segments@[p].name@ == "__STUB"@
            &&& n.segments@[p].vmaddr == m.segments@[p].vmaddr
            &&& stub_text.is_prefix_of(out@.skip(n.segments@[p].fileoff as int))
            &&& n.segments@[p + 1].name@ == "__LINKEDIT"@
            &&& forall|i: int|
                0 <= i < patches.len() ==> n.word_at((#[trigger] patches[i]).0) == Some(
                    patches[i].1,
                )
            &&& forall|a: u64|
                #![trigger is_text_word(m, a)]
                is_text_word(m, a) && (forall|i: int|
                    0 <= i < patches.len() ==> (#[trigger] patches[i]).0 != a) ==> n.word_at(a)
                    == m.word_at(a)
        },
{
    lemma_patches_behind(m, p, patches);
    let (ins, step) = lemma_stub_emitted(m, p, patches, stub_text, out);
    let keep = m.keep_after(step);
    let linkedit = m.segments@[p];
    lemma_taken(m, p, ins, keep, patches);
    if n.reads(out@) {
        lemma_index(m.segments@, "__LINKEDIT"@, 0);
        lemma_found(m, n, p, ins, keep, patches);
        lemma_read_back(
            n.segments@[p],
            ins.commands[0],
            "__STUB"@,
            stub_segment(linkedit, stub_text),
        );
        lemma_own_command(m, p);
        lemma_written_sound(m, linkedit.cmd_index as int, ins, keep, m.commands.len() as int);
        lemma_image(m, linkedit, ins, keep, patches);
        lemma_pages(stub_text.len() as int);
        let limit = linkedit.fileoff as int;
        let part = out@.subrange(limit, limit + ins.payload.len());
        assert forall|i: int| 0 <= i < stub_text.len() implies out@[limit + i]
            == #[trigger] stub_text[i] by {
            assert(part[i] == out@[limit + i]);
            assert(ins.payload[i] == stub_text[i]);
        }
        assert(out@.subrange(limit, limit + stub_text.len()) =~= stub_text);
        lemma_begins_with(out@, limit, stub_text);
        lemma_words(m, n, p, ins, keep, patches);
    }
}

} // verus!
