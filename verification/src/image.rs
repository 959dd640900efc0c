//! Writing the rewritten image: the load commands with the new segments
//! among them, the patched text, the new segments' contents and
//! `__LINKEDIT`, moved up behind them.

use vstd::prelude::*;
use vstd::utf8;
use crate::bytes;
use crate::bytes::{cut, lay, push_zeros, put_u32, put_u64, u32_at};
use crate::macho;
use crate::macho::{round_up, Error, MachO, Segment};
use crate::macho::{
    LC_ATOM_INFO, LC_CODE_SIGNATURE, LC_DATA_IN_CODE, LC_DYLD_CHAINED_FIXUPS,
    LC_DYLD_EXPORTS_TRIE, LC_DYLD_INFO, LC_DYLD_INFO_ONLY, LC_DYLIB_CODE_SIGN_DRS, LC_DYSYMTAB,
    LC_FUNCTION_STARTS, LC_LINKER_OPTIMIZATION_HINT, LC_SEGMENT_64, LC_SEGMENT_SPLIT_INFO,
    LC_SOURCE_VERSION, LC_SYMTAB, PAGE, STUB_DATA_SEGMENT, STUB_TEXT_SEGMENT, VM_PROT_EXECUTE,
    VM_PROT_READ, VM_PROT_WRITE,
};
use crate::text;
use crate::text::push_hex;

pub mod laws;

verus! {

/// Load commands whose payload is a single (dataoff, datasize) pair into
/// `__LINKEDIT`.
pub open spec fn points_into_linkedit(cmd: u32) -> bool {
    ||| cmd == LC_CODE_SIGNATURE || cmd == LC_SEGMENT_SPLIT_INFO || cmd == LC_FUNCTION_STARTS
    ||| cmd == LC_DATA_IN_CODE || cmd == LC_DYLIB_CODE_SIGN_DRS || cmd
        == LC_LINKER_OPTIMIZATION_HINT
    ||| cmd == LC_DYLD_EXPORTS_TRIE || cmd == LC_DYLD_CHAINED_FIXUPS || cmd == LC_ATOM_INFO
}

fn is_linkedit_data(cmd: u32) -> (r: bool)
    ensures
        r == points_into_linkedit(cmd),
{
    cmd == LC_CODE_SIGNATURE || cmd == LC_SEGMENT_SPLIT_INFO || cmd == LC_FUNCTION_STARTS || cmd
        == LC_DATA_IN_CODE || cmd == LC_DYLIB_CODE_SIGN_DRS || cmd == LC_LINKER_OPTIMIZATION_HINT
        || cmd == LC_DYLD_EXPORTS_TRIE || cmd == LC_DYLD_CHAINED_FIXUPS || cmd == LC_ATOM_INFO
}

/// The file offsets into `__LINKEDIT` a load command of this kind holds
pub open spec fn offsets_in(cmd: u32) -> Seq<int> {
    if points_into_linkedit(cmd) {
        seq![8]
    } else if cmd == LC_SYMTAB {
        seq![8, 16]
    } else if cmd == LC_DYSYMTAB {
        seq![32, 40, 48, 56, 64, 72]
    } else if cmd == LC_DYLD_INFO || cmd == LC_DYLD_INFO_ONLY {
        seq![8, 16, 24, 32, 40]
    } else {
        Seq::empty()
    }
}

/// The offset at `off` moved up by `delta`, unless it is zero: none
pub open spec fn bumped(b: Seq<u8>, off: int, delta: u64) -> Seq<u8> {
    if off + 4 <= b.len() && bytes::at32(b, off) != 0 {
        bytes::overlaid(
            b,
            off,
            bytes::le32(bytes::at32(b, off).wrapping_add((delta % 0x1_0000_0000) as u32)),
        )
    } else {
        b
    }
}

/// The first `n` of these offsets moved up
pub open spec fn bumped_all(b: Seq<u8>, offs: Seq<int>, n: int, delta: u64) -> Seq<u8>
    decreases n,
{
    if n <= 0 {
        b
    } else {
        bumped(bumped_all(b, offs, n - 1, delta), offs[n - 1], delta)
    }
}

/// The load command with its offsets into `__LINKEDIT` moved up
pub open spec fn shifted(cmd: u32, b: Seq<u8>, delta: u64) -> Seq<u8> {
    bumped_all(b, offsets_in(cmd), offsets_in(cmd).len() as int, delta)
}

fn bump(b: &mut Vec<u8>, off: usize, delta: u64)
    ensures
        final(b)@ == bumped(old(b)@, off as int, delta),
{
    match u32_at(b.as_slice(), off) {
        Some(v) => {
            if v != 0 {
                put_u32(b, off, v.wrapping_add((delta % 0x1_0000_0000) as u32));
            }
        },
        None => {},
    }
}

/// The file offsets into `__LINKEDIT` a load command of this kind holds
fn linkedit_offsets(cmd: u32) -> (r: Vec<usize>)
    ensures
        r.len() == offsets_in(cmd).len(),
        forall|i: int| 0 <= i < r.len() ==> #[trigger] r@[i] == offsets_in(cmd)[i],
{
    if is_linkedit_data(cmd) {
        vec![8]
    } else if cmd == LC_SYMTAB {
        vec![8, 16]
    } else if cmd == LC_DYSYMTAB {
        vec![32, 40, 48, 56, 64, 72]
    } else if cmd == LC_DYLD_INFO || cmd == LC_DYLD_INFO_ONLY {
        vec![8, 16, 24, 32, 40]
    } else {
        Vec::new()
    }
}

/// Add `delta` to every file offset that points into `__LINKEDIT`.
fn shift_linkedit_offsets(cmd: u32, b: &mut Vec<u8>, delta: u64)
    ensures
        final(b)@ == shifted(cmd, old(b)@, delta),
{
    let offs = linkedit_offsets(cmd);
    let mut i: usize = 0;
    while i < offs.len()
        invariant
            i <= offs.len(),
            offs.len() == offsets_in(cmd).len(),
            forall|k: int| 0 <= k < offs.len() ==> #[trigger] offs@[k] == offsets_in(cmd)[k],
            b@ == bumped_all(old(b)@, offsets_in(cmd), i as int, delta),
        decreases offs.len() - i,
    {
        bump(b, offs[i], delta);
        i += 1;
    }
}

/// A segment's place in memory and in the file
pub struct Place {
    pub vmaddr: u64,
    pub vmsize: u64,
    pub fileoff: u64,
    pub filesize: u64,
}

/// A segment command moved to another place
pub open spec fn placed(b: Seq<u8>, p: Place) -> Seq<u8> {
    bytes::overlaid(
        bytes::overlaid(
            bytes::overlaid(bytes::overlaid(b, 24, bytes::le64(p.vmaddr)), 32, bytes::le64(p.vmsize)),
            40,
            bytes::le64(p.fileoff),
        ),
        48,
        bytes::le64(p.filesize),
    )
}

fn place_segment(b: &mut Vec<u8>, p: &Place)
    requires
        old(b)@.len() >= 56,
    ensures
        final(b)@ == placed(old(b)@, *p),
{
    put_u64(b, 24, p.vmaddr);
    put_u64(b, 32, p.vmsize);
    put_u64(b, 40, p.fileoff);
    put_u64(b, 48, p.filesize);
}

/// A name in a field of 16 bytes
pub open spec fn name_field(name: Seq<u8>) -> Seq<u8> {
    bytes::padded(name, 16)
}

/// The command of a new segment with `sections` sections to follow
pub open spec fn segment_prefix(name: Seq<u8>, p: Place, prot: u32, sections: u32) -> Seq<u8> {
    bytes::le32(LC_SEGMENT_64) + bytes::le32((72 + 80 * sections) as u32) + name_field(name) + bytes::le64(p.vmaddr)
        + bytes::le64(p.vmsize) + bytes::le64(p.fileoff) + bytes::le64(p.filesize) + bytes::le32(prot) + bytes::le32(prot) + bytes::le32(
        sections,
    ) + bytes::le32(0)
}

/// The header of a section that fills its segment, aligned to 4 bytes
pub open spec fn section_header(name: Seq<u8>, segname: Seq<u8>, p: Place, flags: u32) -> Seq<u8> {
    name_field(name) + name_field(segname) + bytes::le64(p.vmaddr) + bytes::le64(p.filesize) + bytes::le32(
        (p.fileoff % 0x1_0000_0000) as u32,
    ) + bytes::le32(2) + bytes::zeros(8) + bytes::le32(flags) + bytes::zeros(12)
}

fn push_name(out: &mut Vec<u8>, name: &str)
    requires
        utf8::encode_utf8(name@).len() <= 16,
        old(out)@.len() <= 1000,
    ensures
        final(out)@ == old(out)@ + name_field(utf8::encode_utf8(name@)),
{
    let b = name.as_bytes();
    out.extend_from_slice(b);
    assert(out@ =~= old(out)@ + utf8::encode_utf8(name@));
    push_zeros(out, 16 - b.len());
    assert(out@ =~= old(out)@ + name_field(utf8::encode_utf8(name@)));
}

fn push_u32(out: &mut Vec<u8>, v: u32)
    ensures
        final(out)@ == old(out)@ + bytes::le32(v),
{
    out.push((v % 0x100) as u8);
    out.push((v / 0x100 % 0x100) as u8);
    out.push((v / 0x1_0000 % 0x100) as u8);
    out.push((v / 0x100_0000) as u8);
    assert(out@ =~= old(out)@ + bytes::le32(v));
}

fn push_u64(out: &mut Vec<u8>, v: u64)
    ensures
        final(out)@ == old(out)@ + bytes::le64(v),
{
    push_u32(out, (v % 0x1_0000_0000) as u32);
    push_u32(out, (v / 0x1_0000_0000) as u32);
    assert(out@ =~= old(out)@ + bytes::le64(v));
}

/// The load command of a new segment without sections
fn segment_command(name: &str, p: &Place, prot: u32, sections: u32) -> (r: Vec<u8>)
    requires
        utf8::encode_utf8(name@).len() <= 16,
        sections <= 1,
    ensures
        r@ == segment_prefix(utf8::encode_utf8(name@), *p, prot, sections),
        r@.len() == 72,
{
    let mut b: Vec<u8> = Vec::new();
    push_u32(&mut b, LC_SEGMENT_64);
    push_u32(&mut b, 72 + 80 * sections);
    push_name(&mut b, name);
    push_u64(&mut b, p.vmaddr);
    push_u64(&mut b, p.vmsize);
    push_u64(&mut b, p.fileoff);
    push_u64(&mut b, p.filesize);
    push_u32(&mut b, prot);
    push_u32(&mut b, prot);
    push_u32(&mut b, sections);
    push_u32(&mut b, 0);
    assert(b@ =~= segment_prefix(utf8::encode_utf8(name@), *p, prot, sections));
    b
}

/// The load command of a new segment that one section fills
fn segment_with_section(segname: &str, sectname: &str, p: &Place, prot: u32, flags: u32) -> (r: Vec<u8>)
    requires
        utf8::encode_utf8(segname@).len() <= 16,
        utf8::encode_utf8(sectname@).len() <= 16,
    ensures
        r@ == segment_prefix(utf8::encode_utf8(segname@), *p, prot, 1) + section_header(
            utf8::encode_utf8(sectname@),
            utf8::encode_utf8(segname@),
            *p,
            flags,
        ),
{
    let mut b = segment_command(segname, p, prot, 1);
    let ghost prefix = b@;
    push_name(&mut b, sectname);
    push_name(&mut b, segname);
    push_u64(&mut b, p.vmaddr);
    push_u64(&mut b, p.filesize);
    push_u32(&mut b, (p.fileoff % 0x1_0000_0000) as u32);
    push_u32(&mut b, 2);
    push_zeros(&mut b, 8);
    push_u32(&mut b, flags);
    push_zeros(&mut b, 12);
    assert(b@ =~= prefix + section_header(utf8::encode_utf8(sectname@), utf8::encode_utf8(segname@), *p, flags));
    b
}

/// Byte strings one after the other
pub open spec fn joined(s: Seq<Seq<u8>>) -> Seq<u8>
    decreases s.len(),
{
    if s.len() == 0 {
        Seq::empty()
    } else {
        joined(s.drop_last()) + s.last()
    }
}

proof fn lemma_joined_push(s: Seq<Seq<u8>>, t: Seq<u8>)
    ensures
        joined(s.push(t)) == joined(s) + t,
{
    assert(s.push(t).drop_last() =~= s);
}

/// What is put in front of `__LINKEDIT`, and where that goes
pub struct Insertion {
    /// The new segments' load commands
    pub commands: Vec<Vec<u8>>,
    /// The new segments' contents
    pub payload: Vec<u8>,
    pub linkedit: Place,
}

/// An insertion's bytes
pub struct Inserted {
    pub commands: Seq<Seq<u8>>,
    pub payload: Seq<u8>,
    pub linkedit: Place,
}

impl View for Insertion {
    type V = Inserted;

    open spec fn view(&self) -> Inserted {
        Inserted {
            commands: self.commands@.map_values(|c: Vec<u8>| c@),
            payload: self.payload@,
            linkedit: self.linkedit,
        }
    }
}

impl MachO {
    /// The rewritten image's load commands that come of the first `i`: the
    /// code signature's and those not to keep are left out, the new
    /// segments' stand in front of `__LINKEDIT`'s, number `at`
    pub open spec fn commands_upto(self, at: int, ins: Inserted, keep: Seq<bool>, i: int) -> Seq<
        Seq<u8>,
    >
        decreases i,
    {
        if i <= 0 {
            Seq::empty()
        } else {
            let before = self.commands_upto(at, ins, keep, i - 1);
            let c = self.commands@[i - 1];
            if c.cmd == LC_CODE_SIGNATURE || !keep[i - 1] {
                before
            } else if i - 1 == at {
                (before + ins.commands).push(placed(c.bytes@, ins.linkedit))
            } else {
                before.push(shifted(c.cmd, c.bytes@, ins.payload.len() as u64))
            }
        }
    }

    pub open spec fn new_commands(self, at: int, ins: Inserted, keep: Seq<bool>) -> Seq<Seq<u8>> {
        self.commands_upto(at, ins, keep, self.commands.len() as int)
    }

    /// The load commands, joined, and how many they are
    fn build_commands(&self, at: usize, ins: &Insertion, keep: &Vec<bool>) -> (r: (Vec<u8>, usize))
        requires
            keep.len() == self.commands.len(),
            at < self.commands.len() ==> self.commands@[at as int].bytes@.len() >= 56,
            self.commands.len() + ins.commands.len() <= usize::MAX,
        ensures
            r.0@ == joined(self.new_commands(at as int, ins@, keep@)),
            r.1 == self.new_commands(at as int, ins@, keep@).len(),
    {
        let mut head: Vec<u8> = Vec::new();
        let mut count: usize = 0;
        let mut i: usize = 0;
        while i < self.commands.len()
            invariant
                i <= self.commands.len(),
                keep.len() == self.commands.len(),
                at < self.commands.len() ==> self.commands@[at as int].bytes@.len() >= 56,
                self.commands.len() + ins.commands.len() <= usize::MAX,
                head@ == joined(self.commands_upto(at as int, ins@, keep@, i as int)),
                count == self.commands_upto(at as int, ins@, keep@, i as int).len(),
                count <= i + (if i > at {
                    ins.commands.len() as int
                } else {
                    0
                }),
            decreases self.commands.len() - i,
        {
            let ghost before = self.commands_upto(at as int, ins@, keep@, i as int);
            let c = &self.commands[i];
            if c.cmd != LC_CODE_SIGNATURE && keep[i] {
                let mut b = cut(c.bytes.as_slice(), 0, c.bytes.len());
                assert(b@ =~= c.bytes@);
                if i == at {
                    let mut k: usize = 0;
                    let ghost extra = ins@.commands;
                    assert(extra.take(0) =~= Seq::empty());
                    assert(before + extra.take(0) =~= before);
                    while k < ins.commands.len()
                        invariant
                            k <= ins.commands.len(),
                            extra == ins@.commands,
                            count <= i,
                            i == at,
                            i < self.commands.len(),
                            self.commands.len() + ins.commands.len() <= usize::MAX,
                            count == before.len(),
                            head@ == joined(before + extra.take(k as int)),
                        decreases ins.commands.len() - k,
                    {
                        proof {
                            assert(before + extra.take(k + 1) =~= (before + extra.take(k as int)).push(
                                extra[k as int],
                            ));
                            lemma_joined_push(before + extra.take(k as int), extra[k as int]);
                        }
                        head.extend_from_slice(ins.commands[k].as_slice());
                        assert(head@ =~= joined(before + extra.take(k as int)) + extra[k as int]);
                        k += 1;
                    }
                    assert(extra.take(k as int) =~= extra);
                    count += ins.commands.len();
                    place_segment(&mut b, &ins.linkedit);
                    proof {
                        lemma_joined_push(before + extra, b@);
                    }
                } else {
                    shift_linkedit_offsets(c.cmd, &mut b, ins.payload.len() as u64);
                    proof {
                        lemma_joined_push(before, b@);
                    }
                }
                let ghost so_far = head@;
                head.extend_from_slice(b.as_slice());
                assert(head@ =~= so_far + b@);
                count += 1;
            }
            i += 1;
        }
        (head, count)
    }

    /// The text with its first `n` patches
    pub open spec fn patched(self, b: Seq<u8>, patches: Seq<(u64, u32)>, n: int) -> Seq<u8>
        decreases n,
    {
        if n <= 0 {
            b
        } else {
            match self.offset_of(patches[n - 1].0) {
                Some(off) => bytes::overlaid(
                    self.patched(b, patches, n - 1),
                    off,
                    bytes::le32(patches[n - 1].1),
                ),
                None => self.patched(b, patches, n - 1),
            }
        }
    }

    /// Whether the word at `addr` lies in the file below `limit`
    pub open spec fn patchable(self, addr: u64, limit: int) -> bool {
        self.offset_of(addr) matches Some(off) && off + 4 <= limit
    }

    pub open spec fn all_patchable(self, patches: Seq<(u64, u32)>, limit: int) -> bool {
        forall|i: int| 0 <= i < patches.len() ==> self.patchable((#[trigger] patches[i]).0, limit)
    }

    /// What is said of the first patch that cannot be made
    pub open spec fn patch_error(self, patches: Seq<(u64, u32)>, limit: int, e: Error) -> bool {
        exists|i: int|
            0 <= i < patches.len() && !#[trigger] self.patchable(patches[i].0, limit) && (forall|j: int|
                0 <= j < i ==> self.patchable((#[trigger] patches[j]).0, limit)) && e is BadLayout
                && e->BadLayout_0@ == "patch at "@ + text::hex(patches[i].0 as nat) + (
            if self.offset_of(patches[i].0) is None {
                " is not file-backed"@
            } else {
                " is inside __LINKEDIT"@
            })
    }

    /// The image up to `limit`, where `__LINKEDIT` began, with the load
    /// commands `head` in place of the old ones
    pub open spec fn with_head(self, limit: int, head: Seq<u8>, count: int) -> Seq<u8> {
        let old_end = 32 + self.header.sizeofcmds;
        let new_end = 32 + head.len() as int;
        let counted = bytes::overlaid(
            bytes::overlaid(
                self.data@.take(limit),
                16,
                bytes::le32((count % 0x1_0000_0000) as u32),
            ),
            20,
            bytes::le32((head.len() % 0x1_0000_0000) as u32),
        );
        let headed = bytes::overlaid(counted, 32, head);
        if old_end > new_end {
            bytes::overlaid(headed, new_end, bytes::zeros((old_end - new_end) as nat))
        } else {
            headed
        }
    }

    fn patch_message(addr: u64, tail: &str) -> (r: Error)
        ensures
            r is BadLayout,
            r->BadLayout_0@ == "patch at "@ + text::hex(addr as nat) + tail@,
    {
        let mut out = String::new();
        out.append("patch at ");
        push_hex(&mut out, addr);
        out.append(tail);
        assert(out@ =~= "patch at "@ + text::hex(addr as nat) + tail@);
        Error::BadLayout(out)
    }

    /// Put the image together.
    fn write_image(
        &self,
        limit: usize,
        head: &Vec<u8>,
        count: usize,
        payload: &Vec<u8>,
        kept: usize,
        patches: &[(u64, u32)],
    ) -> (r: Result<Vec<u8>, Error>)
        requires
            32 + head@.len() <= limit,
            32 + self.header.sizeofcmds <= limit,
            limit + kept <= self.data@.len(),
        ensures
            match r {
                Ok(out) => self.all_patchable(patches@, limit as int) && out@ == self.patched(
                    self.with_head(limit as int, head@, count as int),
                    patches@,
                    patches@.len() as int,
                ) + payload@ + self.data@.subrange(limit as int, limit + kept),
                Err(e) => !self.all_patchable(patches@, limit as int) && self.patch_error(
                    patches@,
                    limit as int,
                    e,
                ),
            },
    {
        let n: usize = self.data.len();
        let mut out = cut(self.data.as_slice(), 0, limit);
        assert(out@ =~= self.data@.take(limit as int));
        put_u32(&mut out, 16, (count as u64 % 0x1_0000_0000) as u32);
        put_u32(&mut out, 20, (head.len() as u64 % 0x1_0000_0000) as u32);
        lay(&mut out, 32, head.as_slice());
        // Zero the gap left when the command list shrinks or is repacked.
        let old_end: usize = (32 + self.header.sizeofcmds as u64) as usize;
        let new_end: usize = 32 + head.len();
        if old_end > new_end {
            let mut gap: Vec<u8> = Vec::new();
            push_zeros(&mut gap, old_end - new_end);
            assert(gap@ =~= bytes::zeros((old_end - new_end) as nat));
            lay(&mut out, new_end, gap.as_slice());
        }
        let ghost headed = self.with_head(limit as int, head@, count as int);
        assert(out@ == headed);
        let mut i: usize = 0;
        while i < patches.len()
            invariant
                i <= patches@.len(),
                32 <= limit,
                out@.len() == limit,
                out@ == self.patched(headed, patches@, i as int),
                forall|j: int|
                    0 <= j < i ==> self.patchable((#[trigger] patches@[j]).0, limit as int),
            decreases patches@.len() - i,
        {
            let (addr, word) = patches[i];
            match self.addr_to_offset(addr) {
                None => {
                    assert(!self.patchable(patches@[i as int].0, limit as int));
                    return Err(Self::patch_message(addr, " is not file-backed"));
                },
                Some(off) => {
                    if off > limit - 4 {
                        assert(!self.patchable(patches@[i as int].0, limit as int));
                        return Err(Self::patch_message(addr, " is inside __LINKEDIT"));
                    }
                    put_u32(&mut out, off, word);
                },
            }
            i += 1;
        }
        let ghost text = out@;
        out.extend_from_slice(payload.as_slice());
        assert(out@ =~= text + payload@);
        let tail = cut(self.data.as_slice(), limit, limit + kept);
        out.extend_from_slice(tail.as_slice());
        assert(out@ =~= text + payload@ + tail@);
        Ok(out)
    }
}

/// The pages that hold `n` bytes, at least one
pub open spec fn pages_for(n: int) -> int {
    macho::rounded_up(
        if n < 1 {
            1
        } else {
            n
        },
        PAGE as int,
    )
}

fn page_size_for(n: usize) -> (r: u64)
    requires
        n + 0x8000 <= usize::MAX,
    ensures
        r == pages_for(n as int),
        n <= r,
        r < n + 0x8000,
{
    proof {
        vstd::arithmetic::power2::lemma2_to64();
        assert(PAGE == vstd::arithmetic::power2::pow2(14));
    }
    if n < 1 {
        round_up(1, PAGE)
    } else {
        round_up(n as u64, PAGE)
    }
}

impl MachO {
    /// What is left of `__LINKEDIT` without the code signature at its end;
    /// none where the signature is not there
    pub open spec fn unsigned_size(self, linkedit: Segment) -> Option<u64> {
        match self.pointed(LC_CODE_SIGNATURE) {
            Some((off, size)) => if off < linkedit.fileoff || off + size > linkedit.fileoff
                + linkedit.filesize {
                None
            } else {
                Some((off - linkedit.fileoff) as u64)
            },
            None => Some(linkedit.filesize),
        }
    }

    /// Whether the file holds what its load commands say of `__LINKEDIT`
    /// and the headers
    pub open spec fn emittable(self) -> bool {
        self.segment_index("__LINKEDIT"@) matches Some(i) ==> {
            let s = self.segments@[i];
            &&& s.cmd_index < self.commands.len()
            &&& self.commands@[s.cmd_index as int].bytes@.len() >= 56
            &&& self.commands.len() + 2 <= usize::MAX
            &&& 32 + self.header.sizeofcmds + self.room() <= s.fileoff
            &&& s.fileoff + s.filesize <= self.data@.len()
        }
    }

    pub fn is_emittable(&self) -> (r: bool)
        ensures
            r == self.emittable(),
    {
        match self.segment("__LINKEDIT") {
            None => true,
            Some(s) => {
                let len: u64 = self.data.len() as u64;
                s.cmd_index < self.commands.len() && self.commands[s.cmd_index].bytes.len() >= 56
                    && self.commands.len() <= usize::MAX - 2 && 32 + self.header.sizeofcmds as u64
                    + self.header_room() as u64 <= s.fileoff && s.fileoff <= len && s.filesize <= len
                    - s.fileoff
            },
        }
    }

    fn without_signature(&self, linkedit: &Segment) -> (r: Option<u64>)
        ensures
            r == self.unsigned_size(*linkedit),
    {
        match self.linkedit_data(LC_CODE_SIGNATURE) {
            Some((off, size)) => {
                if (off as u64) < linkedit.fileoff || off as u128 + size as u128
                    > linkedit.fileoff as u128 + linkedit.filesize as u128 {
                    None
                } else {
                    Some(off as u64 - linkedit.fileoff)
                }
            },
            None => Some(linkedit.filesize),
        }
    }

    /// The two new segments: a page of data and the text behind it
    pub open spec fn data_and_text(self, linkedit: Segment, kept: u64, data: Seq<u8>, text: Seq<u8>) -> Inserted {
        let data_place = Place {
            vmaddr: linkedit.vmaddr,
            vmsize: PAGE,
            fileoff: linkedit.fileoff,
            filesize: PAGE,
        };
        let size = pages_for(text.len() as int) as u64;
        let addr = linkedit.vmaddr.wrapping_add(PAGE);
        let text_place = Place {
            vmaddr: addr,
            vmsize: size,
            fileoff: (linkedit.fileoff + PAGE) as u64,
            filesize: size,
        };
        let stubd = utf8::encode_utf8(STUB_DATA_SEGMENT@);
        let stub = utf8::encode_utf8(STUB_TEXT_SEGMENT@);
        Inserted {
            commands: seq![
                segment_prefix(stubd, data_place, VM_PROT_READ | VM_PROT_WRITE, 1)
                    + section_header(utf8::encode_utf8("__data"@), stubd, data_place, 0),
                // S_ATTR_PURE_INSTRUCTIONS | S_ATTR_SOME_INSTRUCTIONS
                segment_prefix(stub, text_place, VM_PROT_READ | VM_PROT_EXECUTE, 1)
                    + section_header(
                    utf8::encode_utf8("__text"@),
                    stub,
                    text_place,
                    0x8000_0400,
                ),
            ],
            payload: bytes::padded(data, PAGE as nat) + bytes::padded(text, size as nat),
            linkedit: Place {
                vmaddr: addr.wrapping_add(size),
                vmsize: macho::rounded_up(kept as int, PAGE as int) as u64,
                fileoff: (linkedit.fileoff + PAGE + size) as u64,
                filesize: kept,
            },
        }
    }

    /// The one new segment: the text, in the place of `__LINKEDIT`
    pub open spec fn text_alone(self, linkedit: Segment, kept: u64, text: Seq<u8>) -> Inserted {
        let size = pages_for(text.len() as int) as u64;
        let place = Place {
            vmaddr: linkedit.vmaddr,
            vmsize: size,
            fileoff: linkedit.fileoff,
            filesize: size,
        };
        Inserted {
            commands: seq![
                segment_prefix(
                    utf8::encode_utf8(STUB_TEXT_SEGMENT@),
                    place,
                    VM_PROT_READ | VM_PROT_EXECUTE,
                    0,
                ),
            ],
            payload: bytes::padded(text, size as nat),
            linkedit: Place {
                vmaddr: linkedit.vmaddr.wrapping_add(size),
                vmsize: macho::rounded_up(kept as int, PAGE as int) as u64,
                fileoff: (linkedit.fileoff + size) as u64,
                filesize: kept,
            },
        }
    }

    /// How many bytes the load commands may take
    pub open spec fn command_room(self) -> int {
        self.room() + self.header.sizeofcmds
    }

    /// The load commands, joined, with an insertion in front of `linkedit`
    pub open spec fn head_with(self, linkedit: Segment, ins: Inserted, keep: Seq<bool>) -> Seq<u8> {
        joined(self.new_commands(linkedit.cmd_index as int, ins, keep))
    }

    /// The whole image with an insertion in front of `linkedit`
    pub open spec fn image_with(
        self,
        linkedit: Segment,
        ins: Inserted,
        keep: Seq<bool>,
        patches: Seq<(u64, u32)>,
    ) -> Seq<u8> {
        let limit = linkedit.fileoff as int;
        let commands = self.new_commands(linkedit.cmd_index as int, ins, keep);
        self.patched(
            self.with_head(limit, joined(commands), commands.len() as int),
            patches,
            patches.len() as int,
        ) + ins.payload + self.data@.subrange(limit, limit + ins.linkedit.filesize)
    }

    /// Emit the rewritten image: `patches` are `(address, word)` pairs
    /// applied to file-backed text, `stub_data` becomes the `__STUBD` page and
    /// `stub_text` the `__STUB` segment. Where the header has no room for their
    /// load commands and the signature's, commands nothing reads at run time
    /// make way. The result is unsigned.
    pub fn emit(&self, patches: &[(u64, u32)], stub_data: &[u8], stub_text: &[u8]) -> (r: Result<
        Vec<u8>,
        Error,
    >)
        requires
            self.layout() is Some ==> self.emittable(),
            self.data@.len() + stub_text@.len() + 0x1_0000 <= usize::MAX,
        ensures
            self.emits(patches@, stub_data@, stub_text@, r),
    {
        let layout = match self.plan_layout() {
            Ok(l) => l,
            Err(e) => {
                return Err(e);
            },
        };
        let linkedit: &Segment = self.segment("__LINKEDIT").unwrap();
        if stub_data.len() as u64 > PAGE {
            return Err(Error::BadLayout("stub data exceeds one page".to_owned()));
        }
        let kept: u64 = match self.without_signature(linkedit) {
            Some(n) => n,
            None => {
                return Err(
                    Error::BadLayout("code signature is not at the end of __LINKEDIT".to_owned()),
                );
            },
        };
        let size: u64 = page_size_for(stub_text.len());
        let data_place = Place {
            vmaddr: layout.data_addr,
            vmsize: PAGE,
            fileoff: linkedit.fileoff,
            filesize: PAGE,
        };
        let text_place = Place {
            vmaddr: layout.text_addr,
            vmsize: size,
            fileoff: linkedit.fileoff + PAGE,
            filesize: size,
        };
        proof {
            lemma_short_names();
            vstd::arithmetic::power2::lemma2_to64();
            assert(PAGE == vstd::arithmetic::power2::pow2(14));
        }
        let mut payload: Vec<u8> = Vec::new();
        payload.extend_from_slice(stub_data);
        assert(payload@ =~= stub_data@);
        push_zeros(&mut payload, PAGE as usize - stub_data.len());
        assert(payload@ =~= bytes::padded(stub_data@, PAGE as nat));
        payload.extend_from_slice(stub_text);
        push_zeros(&mut payload, size as usize - stub_text.len());
        assert(payload@ =~= bytes::padded(stub_data@, PAGE as nat) + bytes::padded(
            stub_text@,
            size as nat,
        ));
        let mut commands: Vec<Vec<u8>> = Vec::new();
        commands.push(
            segment_with_section(
                STUB_DATA_SEGMENT,
                "__data",
                &data_place,
                VM_PROT_READ | VM_PROT_WRITE,
                0,
            ),
        );
        commands.push(
            segment_with_section(
                STUB_TEXT_SEGMENT,
                "__text",
                &text_place,
                VM_PROT_READ | VM_PROT_EXECUTE,
                0x8000_0400,
            ),
        );
        let ins = Insertion {
            commands,
            payload,
            linkedit: Place {
                vmaddr: layout.text_addr.wrapping_add(size),
                vmsize: round_up(kept, PAGE),
                fileoff: linkedit.fileoff + PAGE + size,
                filesize: kept,
            },
        };
        proof {
            let wanted = self.data_and_text(*linkedit, kept, stub_data@, stub_text@);
            assert(ins@.commands =~= wanted.commands);
            assert(ins@ == wanted);
        }
        self.insert(linkedit, &ins, patches)
    }

    /// What `emit` answers
    pub open spec fn emits(
        self,
        patches: Seq<(u64, u32)>,
        stub_data: Seq<u8>,
        stub_text: Seq<u8>,
        r: Result<Vec<u8>, Error>,
    ) -> bool {
        if self.layout() is None {
            r matches Err(e) && self.layout_error(e)
        } else {
            let linkedit = self.segments@[self.segment_index("__LINKEDIT"@).unwrap()];
            let kept = self.unsigned_size(linkedit);
            if stub_data.len() > PAGE {
                r matches Err(Error::BadLayout(s)) && s@ == "stub data exceeds one page"@
            } else if kept is None {
                r matches Err(Error::BadLayout(s)) && s@
                    == "code signature is not at the end of __LINKEDIT"@
            } else {
                let ins = self.data_and_text(linkedit, kept.unwrap(), stub_data, stub_text);
                self.inserts(linkedit, ins, patches, r)
            }
        }
    }
}

/// Bytes `codesign` needs behind the load commands for its own
pub const SIGNATURE_ROOM: usize = 16;

impl MachO {
    /// Whether load command `i` makes way in the first `step` steps: nothing
    /// reads it at run time. First an empty `LC_DATA_IN_CODE`, then
    /// `LC_SOURCE_VERSION`, then `LC_FUNCTION_STARTS`.
    pub open spec fn makes_way(self, i: int, step: int) -> bool {
        let c = self.commands@[i];
        ||| step >= 1 && c.cmd == LC_DATA_IN_CODE && c.bytes@.len() >= 16 && bytes::at32(c.bytes@, 12) == 0
        ||| step >= 2 && c.cmd == LC_SOURCE_VERSION
        ||| step >= 3 && c.cmd == LC_FUNCTION_STARTS
    }

    pub open spec fn keep_after(self, step: int) -> Seq<bool> {
        Seq::new(self.commands@.len(), |i: int| !self.makes_way(i, step))
    }

    fn kept_after(&self, step: u32) -> (r: Vec<bool>)
        ensures
            r@ == self.keep_after(step as int),
    {
        let mut keep: Vec<bool> = Vec::new();
        let mut i: usize = 0;
        while i < self.commands.len()
            invariant
                i <= self.commands.len(),
                keep.len() == i,
                forall|k: int| 0 <= k < i ==> #[trigger] keep@[k] == !self.makes_way(k, step as int),
            decreases self.commands.len() - i,
        {
            let c = &self.commands[i];
            let empty = match u32_at(c.bytes.as_slice(), 12) {
                Some(n) => n == 0,
                None => false,
            };
            let way = (step >= 1 && c.cmd == LC_DATA_IN_CODE && empty) || (step >= 2 && c.cmd
                == LC_SOURCE_VERSION) || (step >= 3 && c.cmd == LC_FUNCTION_STARTS);
            keep.push(!way);
            i += 1;
        }
        assert(keep@ =~= self.keep_after(step as int));
        keep
    }

    /// Where the stub text goes: the place of `__LINKEDIT`
    pub open spec fn stub_place(self) -> Option<Segment> {
        match (self.segment_index("__LINKEDIT"@), self.segment_index("__TEXT"@)) {
            (Some(i), Some(t)) => {
                let linkedit = self.segments@[i];
                if linkedit.fileoff % PAGE == 0 && linkedit.vmaddr % PAGE == 0 && self.last_in_file(
                    linkedit,
                ) {
                    Some(linkedit)
                } else {
                    None
                }
            },
            _ => None,
        }
    }

    /// The segment whose place the stub text takes over
    pub fn plan_stub(&self) -> (r: Result<&Segment, Error>)
        ensures
            match r {
                Ok(s) => self.stub_place() == Some(*s),
                Err(e) => self.stub_place() is None && self.layout_error(e),
            },
    {
        let linkedit: &Segment = match self.segment("__LINKEDIT") {
            Some(s) => s,
            None => {
                return Err(Error::MissingSegment("__LINKEDIT"));
            },
        };
        if self.segment("__TEXT").is_none() {
            return Err(Error::MissingSegment("__TEXT"));
        }
        if linkedit.fileoff % PAGE != 0 || linkedit.vmaddr % PAGE != 0 {
            return Err(Error::BadLayout("__LINKEDIT is not page aligned".to_owned()));
        }
        let mut i: usize = 0;
        while i < self.segments.len()
            invariant
                i <= self.segments.len(),
                self.segment_index("__LINKEDIT"@) matches Some(k) && *linkedit == self.segments@[k],
                self.segment_index("__TEXT"@) is Some,
                linkedit.fileoff % PAGE == 0,
                linkedit.vmaddr % PAGE == 0,
                forall|k: int|
                    0 <= k < i ==> (#[trigger] self.segments@[k]).fileoff <= linkedit.fileoff,
            decreases self.segments.len() - i,
        {
            if self.segments[i].fileoff > linkedit.fileoff {
                return Err(Error::BadLayout("__LINKEDIT is not last in the file".to_owned()));
            }
            i += 1;
        }
        Ok(linkedit)
    }

    /// The size of the load commands after `step` steps of making way
    pub open spec fn need_after(self, linkedit: Segment, ins: Inserted, step: int) -> int {
        self.head_with(linkedit, ins, self.keep_after(step)).len() + SIGNATURE_ROOM
    }

    pub open spec fn fits_after(self, linkedit: Segment, ins: Inserted, step: int) -> bool {
        self.need_after(linkedit, ins, step) <= self.command_room()
    }

    /// How many steps of making way the load commands need, three at most
    pub open spec fn steps_needed(self, linkedit: Segment, ins: Inserted) -> int {
        if self.fits_after(linkedit, ins, 0) {
            0
        } else if self.fits_after(linkedit, ins, 1) {
            1
        } else if self.fits_after(linkedit, ins, 2) {
            2
        } else {
            3
        }
    }

    /// What is answered where an insertion goes in front of `linkedit`: the
    /// image with the fewest load commands left out that makes the rest fit
    pub open spec fn inserts(
        self,
        linkedit: Segment,
        ins: Inserted,
        patches: Seq<(u64, u32)>,
        r: Result<Vec<u8>, Error>,
    ) -> bool {
        let step = self.steps_needed(linkedit, ins);
        let needed = self.need_after(linkedit, ins, step);
        if !self.fits_after(linkedit, ins, step) {
            r matches Err(Error::NoHeaderRoom { need, have }) && need == (if needed <= usize::MAX {
                needed
            } else {
                usize::MAX as int
            }) && have == self.command_room()
        } else if !self.all_patchable(patches, linkedit.fileoff as int) {
            r matches Err(e) && self.patch_error(patches, linkedit.fileoff as int, e)
        } else {
            r matches Ok(out) && out@ == self.image_with(
                linkedit,
                ins,
                self.keep_after(step),
                patches,
            )
        }
    }

    /// What `emit_stub` answers
    pub open spec fn emits_stub(
        self,
        patches: Seq<(u64, u32)>,
        stub_text: Seq<u8>,
        r: Result<Vec<u8>, Error>,
    ) -> bool {
        if self.stub_place() is None {
            r matches Err(e) && self.layout_error(e)
        } else {
            let linkedit = self.stub_place().unwrap();
            let kept = self.unsigned_size(linkedit);
            if kept is None {
                r matches Err(Error::BadLayout(s)) && s@
                    == "code signature is not at the end of __LINKEDIT"@
            } else {
                let ins = self.text_alone(linkedit, kept.unwrap(), stub_text);
                self.inserts(linkedit, ins, patches, r)
            }
        }
    }

    /// The load commands after `step` steps of making way, and whether they
    /// fit
    fn build_after(&self, linkedit: &Segment, ins: &Insertion, step: u32, have: usize) -> (r: (
        Vec<u8>,
        usize,
        bool,
    ))
        requires
            linkedit.cmd_index < self.commands.len(),
            self.commands@[linkedit.cmd_index as int].bytes@.len() >= 56,
            self.commands.len() + ins.commands.len() <= usize::MAX,
            have == self.command_room(),
        ensures
            r.0@ == self.head_with(*linkedit, ins@, self.keep_after(step as int)),
            r.1 == self.new_commands(
                linkedit.cmd_index as int,
                ins@,
                self.keep_after(step as int),
            ).len(),
            r.2 == self.fits_after(*linkedit, ins@, step as int),
    {
        let keep = self.kept_after(step);
        let (head, count) = self.build_commands(linkedit.cmd_index, ins, &keep);
        let fits = head.len() <= have && have - head.len() >= SIGNATURE_ROOM;
        (head, count, fits)
    }

    /// Write the image with the insertion in front of `linkedit`. Where the
    /// header has no room for the load commands and the signature's, commands
    /// nothing reads at run time make way.
    fn insert(&self, linkedit: &Segment, ins: &Insertion, patches: &[(u64, u32)]) -> (r: Result<
        Vec<u8>,
        Error,
    >)
        requires
            linkedit.cmd_index < self.commands.len(),
            self.commands@[linkedit.cmd_index as int].bytes@.len() >= 56,
            self.commands.len() + ins.commands.len() <= usize::MAX,
            32 + self.header.sizeofcmds + self.room() <= linkedit.fileoff,
            linkedit.fileoff + ins.linkedit.filesize <= self.data@.len(),
        ensures
            self.inserts(*linkedit, ins@, patches@, r),
    {
        let have: usize = self.header_room() + self.header.sizeofcmds as usize;
        let mut step: u32 = 0;
        let mut built = self.build_after(linkedit, ins, 0, have);
        while step < 3 && !built.2
            invariant
                step <= 3,
                linkedit.cmd_index < self.commands.len(),
                self.commands@[linkedit.cmd_index as int].bytes@.len() >= 56,
                self.commands.len() + ins.commands.len() <= usize::MAX,
                have == self.command_room(),
                forall|k: int| 0 <= k < step ==> !#[trigger] self.fits_after(*linkedit, ins@, k),
                built.0@ == self.head_with(*linkedit, ins@, self.keep_after(step as int)),
                built.1 == self.new_commands(
                    linkedit.cmd_index as int,
                    ins@,
                    self.keep_after(step as int),
                ).len(),
                built.2 == self.fits_after(*linkedit, ins@, step as int),
            decreases 3 - step,
        {
            step += 1;
            built = self.build_after(linkedit, ins, step, have);
        }
        assert(step == self.steps_needed(*linkedit, ins@)) by {
            assert(step > 0 ==> !self.fits_after(*linkedit, ins@, 0));
            assert(step > 1 ==> !self.fits_after(*linkedit, ins@, 1));
            assert(step > 2 ==> !self.fits_after(*linkedit, ins@, 2));
        }
        let (head, count, fits) = built;
        if !fits {
            let need: usize = if head.len() <= usize::MAX - SIGNATURE_ROOM {
                head.len() + SIGNATURE_ROOM
            } else {
                usize::MAX
            };
            return Err(Error::NoHeaderRoom { need, have });
        }
        assert(self.data.len() == self.data@.len());
        assert(head@.len() + SIGNATURE_ROOM <= have);
        self.write_image(
            linkedit.fileoff as usize,
            &head,
            count,
            &ins.payload,
            ins.linkedit.filesize as usize,
            patches,
        )
    }

    /// Emit the rewritten image with one new segment, `stub_text` as
    /// `__STUB` in the place of `__LINKEDIT`. Where the header has no room
    /// for its load command and the signature's, commands nothing reads at
    /// run time make way. The result is unsigned.
    pub fn emit_stub(&self, patches: &[(u64, u32)], stub_text: &[u8]) -> (r: Result<Vec<u8>, Error>)
        requires
            self.stub_place() is Some ==> self.emittable(),
            self.data@.len() + stub_text@.len() + 0x1_0000 <= usize::MAX,
        ensures
            self.emits_stub(patches@, stub_text@, r),
    {
        let linkedit: &Segment = match self.plan_stub() {
            Ok(s) => s,
            Err(e) => {
                return Err(e);
            },
        };
        let kept: u64 = match self.without_signature(linkedit) {
            Some(n) => n,
            None => {
                return Err(
                    Error::BadLayout("code signature is not at the end of __LINKEDIT".to_owned()),
                );
            },
        };
        let size: u64 = page_size_for(stub_text.len());
        let place = Place {
            vmaddr: linkedit.vmaddr,
            vmsize: size,
            fileoff: linkedit.fileoff,
            filesize: size,
        };
        proof {
            lemma_short_names();
            vstd::arithmetic::power2::lemma2_to64();
            assert(PAGE == vstd::arithmetic::power2::pow2(14));
        }
        let mut payload: Vec<u8> = Vec::new();
        payload.extend_from_slice(stub_text);
        push_zeros(&mut payload, size as usize - stub_text.len());
        assert(payload@ =~= bytes::padded(stub_text@, size as nat));
        let mut commands: Vec<Vec<u8>> = Vec::new();
        commands.push(
            segment_command(STUB_TEXT_SEGMENT, &place, VM_PROT_READ | VM_PROT_EXECUTE, 0),
        );
        let ins = Insertion {
            commands,
            payload,
            linkedit: Place {
                vmaddr: linkedit.vmaddr.wrapping_add(size),
                vmsize: round_up(kept, PAGE),
                fileoff: linkedit.fileoff + size,
                filesize: kept,
            },
        };
        let ghost wanted = self.text_alone(*linkedit, kept, stub_text@);
        proof {
            assert(ins@.commands =~= wanted.commands);
            assert(ins@ == wanted);
        }
        self.insert(linkedit, &ins, patches)
    }
}

/// A byte of the text that no patch covers, behind the load commands old and
/// new, is the byte it was.
pub proof fn unpatched_bytes_stay(
    m: MachO,
    linkedit: Segment,
    ins: Inserted,
    keep: Seq<bool>,
    patches: Seq<(u64, u32)>,
    at: int,
)
    requires
        linkedit.fileoff <= m.data@.len(),
        32 + m.header.sizeofcmds <= at < linkedit.fileoff,
        32 + m.head_with(linkedit, ins, keep).len() <= at,
        forall|i: int|
            0 <= i < patches.len() ==> (m.offset_of((#[trigger] patches[i]).0) matches Some(off)
                ==> !(off <= at < off + 4)),
    ensures
        m.image_with(linkedit, ins, keep, patches)[at] == m.data@[at],
        m.image_with(linkedit, ins, keep, patches).len() == linkedit.fileoff + ins.payload.len()
            + m.data@.subrange(
            linkedit.fileoff as int,
            linkedit.fileoff + ins.linkedit.filesize,
        ).len(),
{
    let commands = m.new_commands(linkedit.cmd_index as int, ins, keep);
    let headed = m.with_head(linkedit.fileoff as int, joined(commands), commands.len() as int);
    lemma_patched_stays(m, headed, patches, patches.len() as int, at);
}

proof fn lemma_patched_stays(m: MachO, b: Seq<u8>, patches: Seq<(u64, u32)>, n: int, at: int)
    requires
        0 <= at < b.len(),
        0 <= n <= patches.len(),
        forall|i: int|
            0 <= i < n ==> (m.offset_of((#[trigger] patches[i]).0) matches Some(off) ==> !(off
                <= at < off + 4)),
    ensures
        m.patched(b, patches, n)[at] == b[at],
        m.patched(b, patches, n).len() == b.len(),
    decreases n,
{
    if n > 0 {
        lemma_patched_stays(m, b, patches, n - 1, at);
    }
}

/// A patched word reads back from the image, unless a later patch covers
/// some of it.
pub proof fn patched_words_read_back(
    m: MachO,
    linkedit: Segment,
    ins: Inserted,
    keep: Seq<bool>,
    patches: Seq<(u64, u32)>,
    i: int,
)
    requires
        linkedit.fileoff <= m.data@.len(),
        m.all_patchable(patches, linkedit.fileoff as int),
        0 <= i < patches.len(),
        forall|j: int|
            i < j < patches.len() ==> {
                let a = m.offset_of(patches[i].0).unwrap();
                let b = m.offset_of((#[trigger] patches[j]).0).unwrap();
                a + 4 <= b || b + 4 <= a
            },
    ensures
        bytes::at32(
            m.image_with(linkedit, ins, keep, patches),
            m.offset_of(patches[i].0).unwrap(),
        ) == patches[i].1,
{
    let limit = linkedit.fileoff as int;
    let commands = m.new_commands(linkedit.cmd_index as int, ins, keep);
    let headed = m.with_head(limit, joined(commands), commands.len() as int);
    let off = m.offset_of(patches[i].0).unwrap();
    assert(m.patchable(patches[i].0, limit));
    lemma_offset_nonnegative(m, patches[i].0);
    lemma_patch_reads(m, headed, patches, i, patches.len() as int, limit);
    let text = m.patched(headed, patches, patches.len() as int);
    let image = m.image_with(linkedit, ins, keep, patches);
    assert(image[off] == text[off] && image[off + 1] == text[off + 1] && image[off + 2] == text[off
        + 2] && image[off + 3] == text[off + 3]);
}

proof fn lemma_offset_nonnegative(m: MachO, addr: u64)
    ensures
        m.offset_of(addr) matches Some(off) ==> off >= 0,
{
    macho::lemma_covering(m.segments@, addr, 0);
}

proof fn lemma_patch_reads(
    m: MachO,
    b: Seq<u8>,
    patches: Seq<(u64, u32)>,
    i: int,
    n: int,
    limit: int,
)
    requires
        b.len() == limit,
        m.all_patchable(patches, limit),
        0 <= i < n <= patches.len(),
        forall|j: int|
            i < j < n ==> {
                let a = m.offset_of(patches[i].0).unwrap();
                let b = m.offset_of((#[trigger] patches[j]).0).unwrap();
                a + 4 <= b || b + 4 <= a
            },
    ensures
        bytes::at32(m.patched(b, patches, n), m.offset_of(patches[i].0).unwrap()) == patches[i].1,
        m.patched(b, patches, n).len() == limit,
    decreases n,
{
    let off = m.offset_of(patches[i].0).unwrap();
    lemma_offset_nonnegative(m, patches[i].0);
    assert(m.patchable(patches[i].0, limit));
    lemma_patched_len(m, b, patches, n - 1);
    lemma_patched_len(m, b, patches, n);
    if n == i + 1 {
        bytes::numbers_read_back(m.patched(b, patches, n - 1), off, patches[i].1, 0);
    } else {
        lemma_patch_reads(m, b, patches, i, n - 1, limit);
        let other = m.offset_of(patches[n - 1].0).unwrap();
        assert(m.patchable(patches[n - 1].0, limit));
        let before = m.patched(b, patches, n - 1);
        let after = m.patched(b, patches, n);
        assert(off + 4 <= other || other + 4 <= off);
        assert(after[off] == before[off] && after[off + 1] == before[off + 1] && after[off + 2]
            == before[off + 2] && after[off + 3] == before[off + 3]);
    }
}

proof fn lemma_patched_len(m: MachO, b: Seq<u8>, patches: Seq<(u64, u32)>, n: int)
    ensures
        m.patched(b, patches, n).len() == b.len(),
    decreases n,
{
    if n > 0 {
        lemma_patched_len(m, b, patches, n - 1);
    }
}

/// The new segments' and sections' names fit their fields.
proof fn lemma_short_names()
    ensures
        utf8::encode_utf8(STUB_DATA_SEGMENT@).len() <= 16,
        utf8::encode_utf8(STUB_TEXT_SEGMENT@).len() <= 16,
        utf8::encode_utf8("__data"@).len() <= 16,
        utf8::encode_utf8("__text"@).len() <= 16,
{
    reveal_strlit("__STUBD");
    reveal_strlit("__STUB");
    reveal_strlit("__data");
    reveal_strlit("__text");
    utf8::is_ascii_chars_encode_utf8("__STUBD"@);
    utf8::is_ascii_chars_encode_utf8("__STUB"@);
    utf8::is_ascii_chars_encode_utf8("__data"@);
    utf8::is_ascii_chars_encode_utf8("__text"@);
}

} // verus!
