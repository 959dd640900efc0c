//! Minimal Mach-O reader and writer for aarch64 executables.
//!
//! Reads the header, load commands, segments and sections; provides the
//! function table from `LC_FUNCTION_STARTS`; and emits a copy of the image
//! with patched text words and new segments inserted in front of
//! `__LINKEDIT`. The old code signature is dropped so that `codesign -s -`
//! can replace it.

use vstd::prelude::*;
use crate::bytes;
use crate::bytes::{cut, u16_at, u32_at, u64_at};
use crate::text;
use crate::text::{push_decimal, push_hex, same_text};

verus! {

pub const MH_MAGIC_64: u32 = 0xFEED_FACF;

pub const CPU_TYPE_ARM64: u32 = 0x0100_000C;

pub const MH_EXECUTE: u32 = 2;

pub const PAGE: u64 = 0x4000;

pub const LC_SEGMENT_64: u32 = 0x19;

pub const LC_SYMTAB: u32 = 0x2;

pub const LC_DYSYMTAB: u32 = 0xB;

pub const LC_DYLD_INFO: u32 = 0x22;

pub const LC_DYLD_INFO_ONLY: u32 = 0x8000_0022;

pub const LC_CODE_SIGNATURE: u32 = 0x1D;

pub const LC_SEGMENT_SPLIT_INFO: u32 = 0x1E;

pub const LC_FUNCTION_STARTS: u32 = 0x26;

pub const LC_DATA_IN_CODE: u32 = 0x29;

pub const LC_SOURCE_VERSION: u32 = 0x2A;

pub const LC_DYLIB_CODE_SIGN_DRS: u32 = 0x2B;

pub const LC_LINKER_OPTIMIZATION_HINT: u32 = 0x2E;

pub const LC_DYLD_EXPORTS_TRIE: u32 = 0x8000_0033;

pub const LC_DYLD_CHAINED_FIXUPS: u32 = 0x8000_0034;

pub const LC_ATOM_INFO: u32 = 0x36;

pub const VM_PROT_READ: u32 = 1;

pub const VM_PROT_WRITE: u32 = 2;

pub const VM_PROT_EXECUTE: u32 = 4;

pub const STUB_DATA_SEGMENT: &'static str = "__STUBD";

pub const STUB_TEXT_SEGMENT: &'static str = "__STUB";

/// Bytes of the file header, of a segment command and of a section header
pub const HEADER_SIZE: usize = 32;

pub const SEGMENT_CMD_SIZE: usize = 72;

pub const SECTION_SIZE: usize = 80;

#[derive(Debug)]
pub enum Error {
    Truncated(&'static str),
    BadMagic(u32),
    NotArm64Executable,
    MissingSegment(&'static str),
    MissingCommand(&'static str),
    NoHeaderRoom { need: usize, have: usize },
    BadLayout(String),
}

#[derive(Debug, Clone)]
pub struct Header {
    pub cputype: u32,
    pub cpusubtype: u32,
    pub filetype: u32,
    pub ncmds: u32,
    pub sizeofcmds: u32,
    pub flags: u32,
}

#[derive(Debug, Clone)]
pub struct Command {
    pub cmd: u32,
    /// Raw bytes of the whole command including the 8-byte prefix
    pub bytes: Vec<u8>,
}

#[derive(Debug, Clone)]
pub struct Section {
    pub name: String,
    pub segname: String,
    pub addr: u64,
    pub size: u64,
    pub offset: u32,
    pub align: u32,
    pub flags: u32,
}

#[derive(Debug, Clone)]
pub struct Segment {
    pub cmd_index: usize,
    pub name: String,
    pub vmaddr: u64,
    pub vmsize: u64,
    pub fileoff: u64,
    pub filesize: u64,
    pub maxprot: u32,
    pub initprot: u32,
    pub flags: u32,
    pub sections: Vec<Section>,
}

#[derive(Debug, Clone)]
pub struct MachO {
    pub data: Vec<u8>,
    pub header: Header,
    pub commands: Vec<Command>,
    pub segments: Vec<Segment>,
}

/// The text `String::from_utf8_lossy` makes of bytes that are not UTF-8
pub uninterp spec fn lossy_text(bytes: Seq<u8>) -> Seq<char>;

/// The text in bytes: what they encode where they are UTF-8
pub open spec fn read_text(bytes: Seq<u8>) -> Seq<char> {
    if vstd::utf8::valid_utf8(bytes) {
        vstd::utf8::decode_utf8(bytes)
    } else {
        lossy_text(bytes)
    }
}

/// `String::from_utf8_lossy`: the text the bytes encode where they are
/// UTF-8. What stands for bytes that are not is named, not stated.
#[verifier::external_body]
pub(crate) fn lossy(bytes: &[u8]) -> (r: String)
    ensures
        vstd::utf8::valid_utf8(bytes@) ==> r@ == vstd::utf8::decode_utf8(bytes@),
        !vstd::utf8::valid_utf8(bytes@) ==> r@ == lossy_text(bytes@),
{
    String::from_utf8_lossy(bytes).into_owned()
}

/// How many bytes stand in front of the first zero
pub open spec fn nul_at(b: Seq<u8>) -> int
    decreases b.len(),
{
    if b.len() == 0 || b[0] == 0 {
        0
    } else {
        1 + nul_at(b.skip(1))
    }
}

/// The text in a field of bytes that a zero ends
pub open spec fn c_text(b: Seq<u8>) -> Seq<char> {
    read_text(b.take(nul_at(b)))
}

/// The text in `b` from `from` up to `to`, or up to a zero before that
pub(crate) fn text_at(b: &[u8], from: usize, to: usize) -> (r: String)
    requires
        from <= to <= b@.len(),
    ensures
        r@ == c_text(b@.subrange(from as int, to as int)),
{
    let ghost field = b@.subrange(from as int, to as int);
    let mut end: usize = from;
    assert(field.skip(0) =~= field);
    while end < to && b[end] != 0
        invariant
            from <= end <= to <= b@.len(),
            field == b@.subrange(from as int, to as int),
            nul_at(field) == end - from + nul_at(field.skip(end - from)),
        decreases to - end,
    {
        assert(field.skip(end - from).skip(1) =~= field.skip(end + 1 - from));
        assert(field.skip(end - from)[0] == b@[end as int]);
        end += 1;
    }
    proof {
        if end < to {
            assert(field.skip(end - from)[0] == b@[end as int]);
        }
        assert(nul_at(field) == end - from);
        assert(field.take(end - from) =~= b@.subrange(from as int, end as int));
    }
    lossy(vstd::slice::slice_subrange(b, from, end))
}

/// `v` rounded up to a multiple of the power of two `align`
pub open spec fn rounded_up(v: int, align: int) -> int {
    (v + align - 1) / align * align
}

/// Whether the bytes of a segment command hold all the section headers it
/// counts
pub open spec fn sections_fit(b: Seq<u8>) -> bool {
    72 + 80 * bytes::at32(b, 64) <= b.len()
}

pub open spec fn segment_ok(b: Seq<u8>) -> bool {
    b.len() >= 72 && sections_fit(b)
}

impl Section {
    /// What the section header at `at` says
    pub open spec fn reads(self, b: Seq<u8>, at: int) -> bool {
        &&& self.name@ == c_text(b.subrange(at, at + 16))
        &&& self.segname@ == c_text(b.subrange(at + 16, at + 32))
        &&& self.addr == bytes::at64(b, at + 32)
        &&& self.size == bytes::at64(b, at + 40)
        &&& self.offset == bytes::at32(b, at + 48)
        &&& self.align == bytes::at32(b, at + 52)
        &&& self.flags == bytes::at32(b, at + 64)
    }
}

impl Segment {
    /// What the segment command `b` says
    pub open spec fn reads(self, cmd_index: int, b: Seq<u8>) -> bool {
        &&& self.cmd_index == cmd_index
        &&& self.name@ == c_text(b.subrange(8, 24))
        &&& self.vmaddr == bytes::at64(b, 24)
        &&& self.vmsize == bytes::at64(b, 32)
        &&& self.fileoff == bytes::at64(b, 40)
        &&& self.filesize == bytes::at64(b, 48)
        &&& self.maxprot == bytes::at32(b, 56)
        &&& self.initprot == bytes::at32(b, 60)
        &&& self.flags == bytes::at32(b, 68)
        &&& self.sections.len() == bytes::at32(b, 64)
        &&& forall|i: int|
            0 <= i < self.sections.len() ==> #[trigger] self.sections@[i].reads(b, 72 + 80 * i)
    }
}

fn parse_segment(cmd_index: usize, bytes: &[u8]) -> (r: Result<Segment, Error>)
    ensures
        match r {
            Ok(s) => segment_ok(bytes@) && s.reads(cmd_index as int, bytes@),
            Err(e) => !segment_ok(bytes@) && e is Truncated && e->Truncated_0@ == (if bytes@.len()
                < 72 {
                "segment command"@
            } else {
                "section header"@
            }),
        },
{
    let n: usize = bytes.len();
    if n < SEGMENT_CMD_SIZE {
        return Err(Error::Truncated("segment command"));
    }
    let nsects: u32 = u32_at(bytes, 64).unwrap();
    let mut sections: Vec<Section> = Vec::new();
    let mut i: u32 = 0;
    while i < nsects
        invariant
            n == bytes@.len(),
            n >= 72,
            i <= nsects,
            nsects == bytes::at32(bytes@, 64),
            sections.len() == i,
            72 + 80 * i <= n,
            forall|k: int|
                0 <= k < i ==> #[trigger] sections@[k].reads(bytes@, 72 + 80 * k),
        decreases nsects - i,
    {
        let off: usize = SEGMENT_CMD_SIZE + i as usize * SECTION_SIZE;
        if n - off < SECTION_SIZE {
            return Err(Error::Truncated("section header"));
        }
        sections.push(
            Section {
                name: text_at(bytes, off, off + 16),
                segname: text_at(bytes, off + 16, off + 32),
                addr: u64_at(bytes, off + 32).unwrap(),
                size: u64_at(bytes, off + 40).unwrap(),
                offset: u32_at(bytes, off + 48).unwrap(),
                align: u32_at(bytes, off + 52).unwrap(),
                flags: u32_at(bytes, off + 64).unwrap(),
            },
        );
        i += 1;
    }
    Ok(
        Segment {
            cmd_index,
            name: text_at(bytes, 8, 24),
            vmaddr: u64_at(bytes, 24).unwrap(),
            vmsize: u64_at(bytes, 32).unwrap(),
            fileoff: u64_at(bytes, 40).unwrap(),
            filesize: u64_at(bytes, 48).unwrap(),
            maxprot: u32_at(bytes, 56).unwrap(),
            initprot: u32_at(bytes, 60).unwrap(),
            flags: u32_at(bytes, 68).unwrap(),
            sections,
        },
    )
}

/// Where load command `k` begins: right behind the one before it
pub open spec fn command_at(data: Seq<u8>, k: int) -> int
    decreases k,
{
    if k <= 0 {
        32
    } else {
        command_at(data, k - 1) + bytes::at32(data, command_at(data, k - 1) + 4)
    }
}

pub open spec fn command_end(data: Seq<u8>, k: int) -> int {
    command_at(data, k) + bytes::at32(data, command_at(data, k) + 4)
}

/// Whether load command `k` lies within the file
pub open spec fn command_fits(data: Seq<u8>, k: int) -> bool {
    command_at(data, k) + 8 <= data.len() && command_end(data, k) <= data.len()
}

pub open spec fn command_bytes(data: Seq<u8>, k: int) -> Seq<u8> {
    data.subrange(command_at(data, k), command_end(data, k))
}

pub open spec fn is_segment(data: Seq<u8>, k: int) -> bool {
    bytes::at32(data, command_at(data, k)) == LC_SEGMENT_64
}

pub open spec fn command_ok(data: Seq<u8>, k: int) -> bool {
    command_fits(data, k) && (is_segment(data, k) ==> segment_ok(command_bytes(data, k)))
}

/// The numbers of the segment commands among the first `n` load commands
pub open spec fn segment_commands(data: Seq<u8>, n: int) -> Seq<int>
    decreases n,
{
    if n <= 0 {
        Seq::empty()
    } else if is_segment(data, n - 1) {
        segment_commands(data, n - 1).push(n - 1)
    } else {
        segment_commands(data, n - 1)
    }
}

pub open spec fn header_ok(data: Seq<u8>) -> bool {
    &&& data.len() >= 32
    &&& bytes::at32(data, 0) == MH_MAGIC_64
    &&& bytes::at32(data, 4) == CPU_TYPE_ARM64
    &&& bytes::at32(data, 12) == MH_EXECUTE
}

/// Whether the bytes are an image the reader takes
pub open spec fn image_ok(data: Seq<u8>) -> bool {
    header_ok(data) && forall|k: int| 0 <= k < bytes::at32(data, 16) ==> command_ok(data, k)
}

/// What is said of bytes that are no such image; of several broken load
/// commands, of the first
pub open spec fn image_error(data: Seq<u8>, e: Error) -> bool {
    if data.len() < 4 {
        e is Truncated && e->Truncated_0@ == "header"@
    } else if bytes::at32(data, 0) != MH_MAGIC_64 {
        e == Error::BadMagic(bytes::at32(data, 0))
    } else if data.len() < 32 {
        e is Truncated && e->Truncated_0@ == "header"@
    } else if !header_ok(data) {
        e is NotArm64Executable
    } else {
        exists|k: int|
            0 <= k < bytes::at32(data, 16) && (forall|j: int| 0 <= j < k ==> command_ok(data, j))
                && !#[trigger] command_ok(data, k) && e is Truncated && e->Truncated_0@ == (
            if !command_fits(data, k) {
                "load command"@
            } else if command_bytes(data, k).len() < 72 {
                "segment command"@
            } else {
                "section header"@
            })
    }
}

impl MachO {
    /// Whether this is what the bytes `data` say
    pub open spec fn reads(self, data: Seq<u8>) -> bool {
        &&& self.data@ == data
        &&& self.header.cputype == bytes::at32(data, 4)
        &&& self.header.cpusubtype == bytes::at32(data, 8)
        &&& self.header.filetype == bytes::at32(data, 12)
        &&& self.header.ncmds == bytes::at32(data, 16)
        &&& self.header.sizeofcmds == bytes::at32(data, 20)
        &&& self.header.flags == bytes::at32(data, 24)
        &&& self.commands.len() == bytes::at32(data, 16)
        &&& forall|k: int|
            0 <= k < self.commands.len() ==> (#[trigger] self.commands@[k]).cmd == bytes::at32(
                data,
                command_at(data, k),
            ) && self.commands@[k].bytes@ == command_bytes(data, k)
        &&& self.segments.len() == segment_commands(data, bytes::at32(data, 16) as int).len()
        &&& forall|i: int|
            0 <= i < self.segments.len() ==> (#[trigger] self.segments@[i]).reads(
                segment_commands(data, bytes::at32(data, 16) as int)[i],
                command_bytes(data, segment_commands(data, bytes::at32(data, 16) as int)[i]),
            )
    }

    pub fn parse(data: Vec<u8>) -> (r: Result<Self, Error>)
        ensures
            match r {
                Ok(m) => image_ok(data@) && m.reads(data@),
                Err(e) => !image_ok(data@) && image_error(data@, e),
            },
    {
        let magic: u32 = match u32_at(data.as_slice(), 0) {
            Some(magic) => magic,
            None => {
                return Err(Error::Truncated("header"));
            },
        };
        if magic != MH_MAGIC_64 {
            return Err(Error::BadMagic(magic));
        }
        let n: usize = data.len();
        if n < HEADER_SIZE {
            return Err(Error::Truncated("header"));
        }
        let header = Header {
            cputype: u32_at(data.as_slice(), 4).unwrap(),
            cpusubtype: u32_at(data.as_slice(), 8).unwrap(),
            filetype: u32_at(data.as_slice(), 12).unwrap(),
            ncmds: u32_at(data.as_slice(), 16).unwrap(),
            sizeofcmds: u32_at(data.as_slice(), 20).unwrap(),
            flags: u32_at(data.as_slice(), 24).unwrap(),
        };
        if header.cputype != CPU_TYPE_ARM64 || header.filetype != MH_EXECUTE {
            return Err(Error::NotArm64Executable);
        }
        let ncmds: u32 = header.ncmds;
        let mut commands: Vec<Command> = Vec::new();
        let mut segments: Vec<Segment> = Vec::new();
        let mut off: usize = HEADER_SIZE;
        let mut k: u32 = 0;
        while k < ncmds
            invariant
                n == data@.len(),
                header_ok(data@),
                ncmds == bytes::at32(data@, 16),
                k <= ncmds,
                off == command_at(data@, k as int),
                off <= n,
                forall|j: int| 0 <= j < k ==> command_ok(data@, j),
                commands.len() == k,
                forall|j: int|
                    0 <= j < k ==> (#[trigger] commands@[j]).cmd == bytes::at32(
                        data@,
                        command_at(data@, j),
                    ) && commands@[j].bytes@ == command_bytes(data@, j),
                segments.len() == segment_commands(data@, k as int).len(),
                forall|i: int|
                    0 <= i < segments.len() ==> (#[trigger] segments@[i]).reads(
                        segment_commands(data@, k as int)[i],
                        command_bytes(data@, segment_commands(data@, k as int)[i]),
                    ),
            decreases ncmds - k,
        {
            if n - off < 8 {
                assert(!command_ok(data@, k as int));
                return Err(Error::Truncated("load command"));
            }
            let cmd: u32 = u32_at(data.as_slice(), off).unwrap();
            let cmdsize: usize = u32_at(data.as_slice(), off + 4).unwrap() as usize;
            if n - off < cmdsize {
                assert(!command_ok(data@, k as int));
                return Err(Error::Truncated("load command"));
            }
            let bytes = cut(data.as_slice(), off, off + cmdsize);
            assert(bytes@ == command_bytes(data@, k as int));
            if cmd == LC_SEGMENT_64 {
                match parse_segment(k as usize, bytes.as_slice()) {
                    Ok(s) => {
                        segments.push(s);
                    },
                    Err(e) => {
                        assert(!command_ok(data@, k as int));
                        return Err(e);
                    },
                }
            }
            commands.push(Command { cmd, bytes });
            off += cmdsize;
            k += 1;
        }
        Ok(MachO { data, header, commands, segments })
    }
}

/// The first section of that name
pub open spec fn section_from(s: Seq<Section>, name: Seq<char>, i: int) -> Option<int>
    decreases s.len() - i,
{
    if i < 0 || i >= s.len() {
        None
    } else if s[i].name@ == name {
        Some(i)
    } else {
        section_from(s, name, i + 1)
    }
}

/// The first segment of that name, from number `i` on
pub open spec fn segment_from(s: Seq<Segment>, name: Seq<char>, i: int) -> Option<int>
    decreases s.len() - i,
{
    if i < 0 || i >= s.len() {
        None
    } else if s[i].name@ == name {
        Some(i)
    } else {
        segment_from(s, name, i + 1)
    }
}

/// The first load command of that kind, from number `i` on
pub open spec fn command_from(s: Seq<Command>, cmd: u32, i: int) -> Option<int>
    decreases s.len() - i,
{
    if i < 0 || i >= s.len() {
        None
    } else if s[i].cmd == cmd {
        Some(i)
    } else {
        command_from(s, cmd, i + 1)
    }
}

/// The first segment with something in the file that covers `addr`
pub open spec fn covering_from(s: Seq<Segment>, addr: u64, i: int) -> Option<int>
    decreases s.len() - i,
{
    if i < 0 || i >= s.len() {
        None
    } else if s[i].filesize > 0 && s[i].covers(addr) {
        Some(i)
    } else {
        covering_from(s, addr, i + 1)
    }
}

pub proof fn lemma_covering(s: Seq<Segment>, addr: u64, i: int)
    requires
        0 <= i,
    ensures
        covering_from(s, addr, i) matches Some(k) ==> i <= k < s.len() && s[k].covers(addr),
    decreases s.len() - i,
{
    if i < s.len() && !(s[i].filesize > 0 && s[i].covers(addr)) {
        lemma_covering(s, addr, i + 1);
    }
}

impl Segment {
    pub fn section(&self, name: &str) -> (r: Option<&Section>)
        ensures
            match r {
                Some(s) => section_from(self.sections@, name@, 0) matches Some(i)
                    && *s == self.sections@[i] && 0 <= i < self.sections.len() && s.name@ == name@,
                None => section_from(self.sections@, name@, 0) is None,
            },
    {
        let mut i: usize = 0;
        while i < self.sections.len()
            invariant
                i <= self.sections.len(),
                section_from(self.sections@, name@, 0) == section_from(
                    self.sections@,
                    name@,
                    i as int,
                ),
            decreases self.sections.len() - i,
        {
            if same_text(self.sections[i].name.as_str(), name) {
                return Some(&self.sections[i]);
            }
            i += 1;
        }
        None
    }

    pub open spec fn covers(self, addr: u64) -> bool {
        self.vmaddr <= addr < self.vmaddr + self.vmsize
    }

    pub fn contains_addr(&self, addr: u64) -> (r: bool)
        ensures
            r == self.covers(addr),
    {
        addr >= self.vmaddr && addr - self.vmaddr < self.vmsize
    }
}

/// A byte's share of a variable-length number: seven bits
pub open spec fn uleb_power(i: int) -> nat
    decreases i,
{
    if i <= 0 {
        1
    } else {
        128 * uleb_power(i - 1)
    }
}

pub open spec fn uleb_sum(b: Seq<u8>, n: int) -> nat
    decreases n,
{
    if n <= 0 {
        0
    } else {
        uleb_sum(b, n - 1) + (b[n - 1] % 128) as nat * uleb_power(n - 1)
    }
}

/// How long the number at the start of `b` is: up to the first byte without
/// the continuation bit, which is at most the tenth
pub open spec fn uleb_len(b: Seq<u8>, n: int) -> bool {
    &&& 1 <= n <= 10
    &&& n <= b.len()
    &&& b[n - 1] < 128
    &&& forall|i: int| 0 <= i < n - 1 ==> b[i] >= 128
}

/// The number at the start of `b`, modulo 2^64, and its length
pub open spec fn uleb(b: Seq<u8>) -> Option<(u64, int)> {
    if exists|n: int| uleb_len(b, n) {
        let n = choose|n: int| uleb_len(b, n);
        Some(((uleb_sum(b, n) % 0x1_0000_0000_0000_0000) as u64, n))
    } else {
        None
    }
}

proof fn lemma_uleb(b: Seq<u8>, n: int)
    requires
        uleb_len(b, n),
    ensures
        uleb(b) == Some(((uleb_sum(b, n) % 0x1_0000_0000_0000_0000) as u64, n)),
{
    let m = choose|m: int| uleb_len(b, m);
    assert(uleb_len(b, m));
    assert(m == n);
}

proof fn lemma_uleb_power(i: int)
    requires
        0 <= i <= 10,
    ensures
        uleb_power(i) <= 0x40_0000_0000_0000_0000,
{
    reveal_with_fuel(uleb_power, 11);
}

/// The number at `from` in `b`, and where it ends
fn read_uleb(b: &[u8], from: usize) -> (r: Option<(u64, usize)>)
    requires
        from <= b@.len(),
    ensures
        match r {
            Some((v, end)) => from < end <= b@.len() && uleb(b@.skip(from as int)) == Some(
                (v, end - from),
            ),
            None => uleb(b@.skip(from as int)) is None,
        },
{
    let ghost s = b@.skip(from as int);
    let mut acc: u128 = 0;
    let mut unit: u128 = 1;
    let mut i: usize = from;
    while i < b.len() && i - from < 10
        invariant
            from <= i <= b@.len(),
            i - from <= 10,
            s == b@.skip(from as int),
            unit == uleb_power(i - from),
            acc == uleb_sum(s, i - from),
            acc < unit,
            forall|k: int| 0 <= k < i - from ==> s[k] >= 128,
        decreases b@.len() - i,
    {
        let byte: u8 = b[i];
        assert(s[i - from] == byte);
        proof {
            lemma_uleb_power(i - from);
            let d = (byte % 128) as int;
            assert(d * unit <= 127 * unit) by (nonlinear_arith)
                requires
                    0 <= d <= 127,
            ;
            assert(d * unit >= 0) by (nonlinear_arith)
                requires
                    0 <= d,
            ;
        }
        acc = acc + (byte % 128) as u128 * unit;
        i += 1;
        if byte < 128 {
            proof {
                lemma_uleb(s, i - from);
            }
            return Some(((acc % 0x1_0000_0000_0000_0000) as u64, i));
        }
        unit = unit * 128;
    }
    proof {
        if exists|n: int| uleb_len(s, n) {
            let n = choose|n: int| uleb_len(s, n);
            assert(uleb_len(s, n));
            if n <= i - from {
                assert(s[n - 1] >= 128);
            }
        }
    }
    None
}

/// The addresses a function table holds: each number is the distance from
/// the address before it, and a zero or the table's end ends it. None where
/// a number is broken off.
pub open spec fn starts_from(table: Seq<u8>, i: int, addr: u64) -> Option<Seq<u64>>
    decreases table.len() - i,
{
    if i < 0 || i >= table.len() {
        Some(Seq::empty())
    } else {
        match uleb(table.skip(i)) {
            None => None,
            Some((delta, n)) => if delta == 0 || n <= 0 {
                Some(Seq::empty())
            } else {
                let next = addr.wrapping_add(delta);
                match starts_from(table, i + n, next) {
                    None => None,
                    Some(rest) => Some(seq![next] + rest),
                }
            },
        }
    }
}

/// The entries of a data-in-code table at `off`, as far as the file goes
pub open spec fn data_entries(data: Seq<u8>, off: int, size: int, base: u64) -> Seq<(u64, u16, u16)> {
    let room = if data.len() < off {
        0
    } else if size <= data.len() - off {
        size
    } else {
        data.len() - off
    };
    Seq::new(
        (room / 8) as nat,
        |k: int|
            (
                base.wrapping_add(bytes::at32(data, off + 8 * k) as u64),
                bytes::at16(data, off + 8 * k + 4),
                bytes::at16(data, off + 8 * k + 6),
            ),
    )
}

/// Whether the symbol table entry at `at` defines a symbol in a section and
/// is no debugger entry
pub open spec fn defines_symbol(data: Seq<u8>, at: int) -> bool {
    data[at + 4] / 32 == 0 && data[at + 4] / 2 % 8 == 7
}

/// The symbol table entries that lie within the file and define a symbol,
/// among the first `n` from `off` on: their addresses and where their names
/// begin
pub open spec fn symbol_entries(data: Seq<u8>, off: int, n: int) -> Seq<(u64, u32)>
    decreases n,
{
    if n <= 0 {
        Seq::empty()
    } else {
        let at = off + 16 * (n - 1);
        let before = symbol_entries(data, off, n - 1);
        if at + 16 <= data.len() && defines_symbol(data, at) {
            before.push((bytes::at64(data, at + 8), bytes::at32(data, at)))
        } else {
            before
        }
    }
}

/// The name at `strx` of the string table of `size` bytes at `off`; nothing
/// outside the table or the file
pub open spec fn symbol_name(data: Seq<u8>, off: int, size: int, strx: int) -> Seq<char> {
    let end = if off + size <= data.len() {
        off + size
    } else {
        data.len() as int
    };
    if off + strx >= end {
        c_text(Seq::empty())
    } else {
        c_text(data.subrange(off + strx, end))
    }
}

impl MachO {
    pub open spec fn segment_index(self, name: Seq<char>) -> Option<int> {
        segment_from(self.segments@, name, 0)
    }

    pub open spec fn command_index(self, cmd: u32) -> Option<int> {
        command_from(self.commands@, cmd, 0)
    }

    fn find_segment(&self, name: &str) -> (r: Option<usize>)
        ensures
            match r {
                Some(i) => self.segment_index(name@) == Some(i as int) && i < self.segments.len()
                    && self.segments@[i as int].name@ == name@,
                None => self.segment_index(name@) is None,
            },
    {
        let mut i: usize = 0;
        while i < self.segments.len()
            invariant
                i <= self.segments.len(),
                self.segment_index(name@) == segment_from(self.segments@, name@, i as int),
            decreases self.segments.len() - i,
        {
            if same_text(self.segments[i].name.as_str(), name) {
                return Some(i);
            }
            i += 1;
        }
        None
    }

    pub fn segment(&self, name: &str) -> (r: Option<&Segment>)
        ensures
            match r {
                Some(s) => self.segment_index(name@) matches Some(i) && 0 <= i
                    < self.segments.len() && *s == self.segments@[i] && s.name@ == name@,
                None => self.segment_index(name@) is None,
            },
    {
        match self.find_segment(name) {
            Some(i) => Some(&self.segments[i]),
            None => None,
        }
    }

    pub fn command(&self, cmd: u32) -> (r: Option<&Command>)
        ensures
            match r {
                Some(c) => self.command_index(cmd) matches Some(i) && 0 <= i < self.commands.len()
                    && *c == self.commands@[i] && c.cmd == cmd,
                None => self.command_index(cmd) is None,
            },
    {
        let mut i: usize = 0;
        while i < self.commands.len()
            invariant
                i <= self.commands.len(),
                self.command_index(cmd) == command_from(self.commands@, cmd, i as int),
            decreases self.commands.len() - i,
        {
            if self.commands[i].cmd == cmd {
                return Some(&self.commands[i]);
            }
            i += 1;
        }
        None
    }

    /// The section `__TEXT,__text`, if there is one
    pub open spec fn text(self) -> Option<Section> {
        match self.segment_index("__TEXT"@) {
            Some(i) => match section_from(self.segments@[i].sections@, "__text"@, 0) {
                Some(k) => Some(self.segments@[i].sections@[k]),
                None => None,
            },
            None => None,
        }
    }

    /// What is said where there is no such section
    pub open spec fn text_missing(self, e: Error) -> bool {
        e is MissingSegment && e->MissingSegment_0@ == (if self.segment_index("__TEXT"@) is None {
            "__TEXT"@
        } else {
            "__TEXT,__text"@
        })
    }

    /// The `__TEXT,__text` section, where all program code lives.
    pub fn text_section(&self) -> (r: Result<&Section, Error>)
        ensures
            match r {
                Ok(s) => self.text() == Some(*s),
                Err(e) => self.text() is None && self.text_missing(e),
            },
    {
        match self.segment("__TEXT") {
            None => Err(Error::MissingSegment("__TEXT")),
            Some(t) => match t.section("__text") {
                Some(s) => Ok(s),
                None => Err(Error::MissingSegment("__TEXT,__text")),
            },
        }
    }

    pub open spec fn covering(self, addr: u64) -> Option<int> {
        covering_from(self.segments@, addr, 0)
    }

    pub fn segment_for_addr(&self, addr: u64) -> (r: Option<&Segment>)
        ensures
            match r {
                Some(s) => self.covering(addr) matches Some(i) && 0 <= i < self.segments.len()
                    && *s == self.segments@[i] && s.covers(addr),
                None => self.covering(addr) is None,
            },
    {
        let mut i: usize = 0;
        while i < self.segments.len()
            invariant
                i <= self.segments.len(),
                self.covering(addr) == covering_from(self.segments@, addr, i as int),
            decreases self.segments.len() - i,
        {
            if self.segments[i].filesize > 0 && self.segments[i].contains_addr(addr) {
                return Some(&self.segments[i]);
            }
            i += 1;
        }
        None
    }

    /// Where in the file the byte at `addr` is, if it is there at all
    pub open spec fn offset_of(self, addr: u64) -> Option<int> {
        match self.covering(addr) {
            Some(i) => {
                let s = self.segments@[i];
                if addr - s.vmaddr < s.filesize && s.fileoff + (addr - s.vmaddr) <= usize::MAX {
                    Some(s.fileoff + (addr - s.vmaddr))
                } else {
                    None
                }
            },
            None => None,
        }
    }

    /// File offset backing a virtual address, if the address is file-backed.
    pub fn addr_to_offset(&self, addr: u64) -> (r: Option<usize>)
        ensures
            match r {
                Some(off) => self.offset_of(addr) == Some(off as int),
                None => self.offset_of(addr) is None,
            },
    {
        match self.segment_for_addr(addr) {
            Some(seg) => {
                let rel: u64 = addr - seg.vmaddr;
                if rel < seg.filesize && seg.fileoff <= usize::MAX as u64 && rel <= usize::MAX as u64
                    - seg.fileoff {
                    Some((seg.fileoff + rel) as usize)
                } else {
                    None
                }
            },
            None => None,
        }
    }

    /// The word at `addr`, if the file holds it
    pub open spec fn word_at(self, addr: u64) -> Option<u32> {
        match self.offset_of(addr) {
            Some(off) if off + 4 <= self.data@.len() => Some(bytes::at32(self.data@, off)),
            _ => None,
        }
    }

    pub fn read_word(&self, addr: u64) -> (r: Option<u32>)
        ensures
            r == self.word_at(addr),
    {
        match self.addr_to_offset(addr) {
            Some(off) => u32_at(self.data.as_slice(), off),
            None => None,
        }
    }

    /// Where a load command of a (dataoff, datasize) pair points
    pub open spec fn pointed(self, cmd: u32) -> Option<(int, int)> {
        match self.command_index(cmd) {
            Some(i) => if self.commands@[i].bytes@.len() >= 16 {
                Some(
                    (
                        bytes::at32(self.commands@[i].bytes@, 8) as int,
                        bytes::at32(self.commands@[i].bytes@, 12) as int,
                    ),
                )
            } else {
                None
            },
            None => None,
        }
    }

    pub(crate) fn linkedit_data(&self, cmd: u32) -> (r: Option<(u32, u32)>)
        ensures
            match r {
                Some((off, size)) => self.pointed(cmd) == Some((off as int, size as int)),
                None => self.pointed(cmd) is None,
            },
    {
        match self.command(cmd) {
            Some(c) => {
                if c.bytes.len() < 16 {
                    return None;
                }
                Some((u32_at(c.bytes.as_slice(), 8).unwrap(), u32_at(c.bytes.as_slice(), 12).unwrap()))
            },
            None => None,
        }
    }

    /// The function table's addresses, if the table is whole
    pub open spec fn starts(self) -> Option<Seq<u64>> {
        match (self.pointed(LC_FUNCTION_STARTS), self.segment_index("__TEXT"@)) {
            (Some((off, size)), Some(i)) => if off + size <= self.data@.len() {
                starts_from(self.data@.subrange(off, off + size), 0, self.segments@[i].vmaddr)
            } else {
                None
            },
            _ => None,
        }
    }

    /// What is said of a function table that is not there or not whole
    pub open spec fn starts_error(self, e: Error) -> bool {
        match self.pointed(LC_FUNCTION_STARTS) {
            None => e is MissingCommand && e->MissingCommand_0@ == "LC_FUNCTION_STARTS"@,
            Some((off, size)) => if off + size > self.data@.len() {
                e is Truncated && e->Truncated_0@ == "function starts"@
            } else if self.segment_index("__TEXT"@) is None {
                e is MissingSegment && e->MissingSegment_0@ == "__TEXT"@
            } else {
                e is Truncated && e->Truncated_0@ == "function starts"@
            },
        }
    }

    /// Absolute addresses of every function start, ascending.
    pub fn function_starts(&self) -> (r: Result<Vec<u64>, Error>)
        ensures
            match r {
                Ok(v) => self.starts() == Some(v@),
                Err(e) => self.starts() is None && self.starts_error(e),
            },
    {
        let (off, size) = match self.linkedit_data(LC_FUNCTION_STARTS) {
            Some(p) => p,
            None => {
                return Err(Error::MissingCommand("LC_FUNCTION_STARTS"));
            },
        };
        if off as u64 + size as u64 > self.data.len() as u64 {
            return Err(Error::Truncated("function starts"));
        }
        let table = cut(self.data.as_slice(), off as usize, (off as u64 + size as u64) as usize);
        let base: u64 = match self.segment("__TEXT") {
            Some(s) => s.vmaddr,
            None => {
                return Err(Error::MissingSegment("__TEXT"));
            },
        };
        let mut out: Vec<u64> = Vec::new();
        let mut addr: u64 = base;
        let mut i: usize = 0;
        let ghost whole = starts_from(table@, 0, base);
        assert(whole == starts_from(table@, 0, base));
        assert(starts_from(table@, 0, base) matches Some(rest) ==> out@ + rest =~= rest);
        while i < table.len()
            invariant_except_break
                whole is None <==> starts_from(table@, i as int, addr) is None,
                starts_from(table@, i as int, addr) matches Some(rest) ==> whole == Some(
                    out@ + rest,
                ),
            invariant
                i <= table.len(),
                table@ == self.data@.subrange(off as int, off + size),
                self.pointed(LC_FUNCTION_STARTS) == Some((off as int, size as int)),
                off + size <= self.data@.len(),
                self.segment_index("__TEXT"@) matches Some(t) && self.segments@[t].vmaddr == base,
                whole == starts_from(table@, 0, base),
            ensures
                whole == Some(out@),
            decreases table.len() - i,
        {
            match read_uleb(table.as_slice(), i) {
                None => {
                    return Err(Error::Truncated("function starts"));
                },
                Some((delta, end)) => {
                    if delta == 0 {
                        assert(out@ + Seq::<u64>::empty() =~= out@);
                        break;
                    }
                    let ghost before = out@;
                    addr = addr.wrapping_add(delta);
                    out.push(addr);
                    proof {
                        if let Some(rest) = starts_from(table@, end as int, addr) {
                            assert(before + (seq![addr] + rest) =~= out@ + rest);
                        }
                    }
                    i = end;
                },
            }
        }
        assert(out@ + Seq::<u64>::empty() =~= out@);
        Ok(out)
    }

    /// Where `__TEXT` begins, or zero
    pub open spec fn text_base(self) -> u64 {
        match self.segment_index("__TEXT"@) {
            Some(i) => self.segments@[i].vmaddr,
            None => 0,
        }
    }

    pub open spec fn code_data(self) -> Seq<(u64, u16, u16)> {
        match self.pointed(LC_DATA_IN_CODE) {
            Some((off, size)) => data_entries(self.data@, off, size, self.text_base()),
            None => Seq::empty(),
        }
    }

    /// `(addr, length, kind)` entries from `LC_DATA_IN_CODE`.
    pub fn data_in_code(&self) -> (r: Vec<(u64, u16, u16)>)
        ensures
            r@ == self.code_data(),
    {
        let mut out: Vec<(u64, u16, u16)> = Vec::new();
        let (off, size) = match self.linkedit_data(LC_DATA_IN_CODE) {
            Some(p) => p,
            None => {
                return out;
            },
        };
        let base: u64 = match self.segment("__TEXT") {
            Some(s) => s.vmaddr,
            None => 0,
        };
        let len: usize = self.data.len();
        let ghost wanted = data_entries(self.data@, off as int, size as int, base);
        if off as usize > len {
            assert(out@ =~= wanted);
            return out;
        }
        let start: usize = off as usize;
        let end: usize = if size as usize <= len - start {
            start + size as usize
        } else {
            len
        };
        let mut i: usize = start;
        while end - i >= 8
            invariant
                len == self.data@.len(),
                start == off,
                start <= i <= end <= len,
                end == (if size <= len - start {
                    start + size
                } else {
                    len as int
                }),
                i == start + 8 * out.len(),
                wanted == data_entries(self.data@, off as int, size as int, base),
                forall|k: int| 0 <= k < out.len() ==> #[trigger] out@[k] == wanted[k],
            decreases end - i,
        {
            let rel: u32 = u32_at(self.data.as_slice(), i).unwrap();
            let length: u16 = u16_at(self.data.as_slice(), i + 4).unwrap();
            let kind: u16 = u16_at(self.data.as_slice(), i + 6).unwrap();
            out.push((base.wrapping_add(rel as u64), length, kind));
            i += 8;
        }
        assert(out@ =~= wanted);
        out
    }

    /// The defined symbols as the symbol table lists them
    pub open spec fn listed_symbols(self) -> Seq<(u64, Seq<char>)> {
        match self.command_index(LC_SYMTAB) {
            Some(i) if self.commands@[i].bytes@.len() >= 24 => {
                let c = self.commands@[i].bytes@;
                symbol_entries(self.data@, bytes::at32(c, 8) as int, bytes::at32(c, 12) as int).map_values(
                    |e: (u64, u32)|
                        (
                            e.0,
                            symbol_name(
                                self.data@,
                                bytes::at32(c, 16) as int,
                                bytes::at32(c, 20) as int,
                                e.1 as int,
                            ),
                        ),
                )
            },
            _ => Seq::empty(),
        }
    }

    /// Whether `s` is the defined symbols by address, those at one address
    /// in the table's order
    pub open spec fn symbols_are(self, s: Seq<(u64, String)>) -> bool {
        exists|order: Seq<int>| #[trigger] self.symbols_ordered(s, order)
    }

    pub open spec fn symbols_ordered(self, s: Seq<(u64, String)>, order: Seq<int>) -> bool {
        &&& crate::sorting::sorts(
            order,
            self.listed_symbols().map_values(|e: (u64, Seq<char>)| e.0),
        )
        &&& s.len() == order.len()
        &&& forall|i: int|
            0 <= i < s.len() ==> (#[trigger] s[i]).0 == self.listed_symbols()[order[i]].0
                && s[i].1@ == self.listed_symbols()[order[i]].1
    }
}

impl MachO {
    /// The name of a symbol, `strx` bytes into the string table
    fn name_of_symbol(&self, off: u32, size: u32, strx: u32) -> (r: String)
        ensures
            r@ == symbol_name(self.data@, off as int, size as int, strx as int),
    {
        let len: usize = self.data.len();
        let end: usize = if off as u64 + size as u64 <= len as u64 {
            (off as u64 + size as u64) as usize
        } else {
            len
        };
        if off as u64 + strx as u64 >= end as u64 {
            assert(self.data@.subrange(end as int, end as int) =~= Seq::empty());
            return text_at(self.data.as_slice(), end, end);
        }
        text_at(self.data.as_slice(), (off as u64 + strx as u64) as usize, end)
    }

    /// The defined symbols, `(address, name)`, by address
    pub fn symbols(&self) -> (r: Vec<(u64, String)>)
        ensures
            self.symbols_are(r@),
    {
        let mut out: Vec<(u64, String)> = Vec::new();
        let ghost listed = self.listed_symbols();
        let table: Option<&Command> = self.command(LC_SYMTAB);
        let found = match table {
            Some(c) => c.bytes.len() >= 24,
            None => false,
        };
        if !found {
            proof {
                assert(listed =~= Seq::empty());
                assert(self.symbols_ordered(out@, Seq::empty()));
            }
            return out;
        }
        let c = table.unwrap().bytes.as_slice();
        let off: u32 = u32_at(c, 8).unwrap();
        let n: u32 = u32_at(c, 12).unwrap();
        let stroff: u32 = u32_at(c, 16).unwrap();
        let strsize: u32 = u32_at(c, 20).unwrap();
        let len: usize = self.data.len();
        let mut keys: Vec<u64> = Vec::new();
        let mut names: Vec<u32> = Vec::new();
        let mut i: u32 = 0;
        let ghost entries = symbol_entries(self.data@, off as int, n as int);
        while i < n
            invariant
                i <= n,
                len == self.data@.len(),
                keys.len() == names.len(),
                keys.len() == symbol_entries(self.data@, off as int, i as int).len(),
                forall|k: int|
                    0 <= k < keys.len() ==> #[trigger] symbol_entries(
                        self.data@,
                        off as int,
                        i as int,
                    )[k] == (keys@[k], names@[k]),
            decreases n - i,
        {
            let at: u64 = off as u64 + 16 * i as u64;
            if at + 16 <= len as u64 {
                let at: usize = at as usize;
                let kind: u8 = self.data[at + 4];
                if kind / 32 == 0 && kind / 2 % 8 == 7 {
                    keys.push(u64_at(self.data.as_slice(), at + 8).unwrap());
                    names.push(u32_at(self.data.as_slice(), at).unwrap());
                }
            }
            i += 1;
        }
        let order = crate::sorting::order_of(&keys);
        let ghost places = crate::sorting::numbers(order@);
        assert(listed.map_values(|e: (u64, Seq<char>)| e.0) =~= keys@);
        let mut j: usize = 0;
        while j < order.len()
            invariant
                j <= order.len(),
                out.len() == j,
                places == crate::sorting::numbers(order@),
                crate::sorting::sorts(places, keys@),
                keys.len() == names.len(),
                keys.len() == listed.len(),
                listed == self.listed_symbols(),
                forall|k: int|
                    0 <= k < keys.len() ==> (#[trigger] listed[k]).0 == keys@[k] && listed[k].1
                        == symbol_name(
                        self.data@,
                        stroff as int,
                        strsize as int,
                        names@[k] as int,
                    ),
                forall|k: int|
                    0 <= k < j ==> (#[trigger] out@[k]).0 == listed[places[k]].0 && out@[k].1@
                        == listed[places[k]].1,
            decreases order.len() - j,
        {
            assert(places[j as int] == order@[j as int]);
            let at: usize = order[j];
            let name = self.name_of_symbol(stroff, strsize, names[at]);
            out.push((keys[at], name));
            j += 1;
        }
        assert(self.symbols_ordered(out@, places));
        out
    }

    /// Whether `off` is the lowest place in the file a section begins at
    pub open spec fn first_content(self, off: int) -> bool {
        &&& exists|i: int, k: int|
            0 <= i < self.segments.len() && 0 <= k < self.segments@[i].sections.len() && (
            #[trigger] self.segments@[i].sections@[k]).offset == off
        &&& off != 0
        &&& forall|i: int, k: int|
            0 <= i < self.segments.len() && 0 <= k < self.segments@[i].sections.len() && (
            #[trigger] self.segments@[i].sections@[k]).offset != 0
                ==> self.segments@[i].sections@[k].offset >= off
    }

    /// Bytes free between the load commands and the first section's content
    pub open spec fn room(self) -> int {
        let end = 32 + self.header.sizeofcmds;
        if exists|off: int| self.first_content(off) {
            let first = choose|off: int| self.first_content(off);
            if first > end {
                first - end
            } else {
                0
            }
        } else {
            0
        }
    }

    /// Bytes free between the end of the load commands and the first
    /// file-backed section of `__TEXT`.
    pub fn header_room(&self) -> (r: usize)
        ensures
            r == self.room(),
    {
        let end: u64 = 32 + self.header.sizeofcmds as u64;
        let mut first: Option<u32> = None;
        let mut i: usize = 0;
        while i < self.segments.len()
            invariant
                i <= self.segments.len(),
                self.content_among(first, i as int, 0),
            decreases self.segments.len() - i,
        {
            let s = &self.segments[i].sections;
            let mut k: usize = 0;
            while k < s.len()
                invariant
                    i < self.segments.len(),
                    k <= s.len(),
                    *s == self.segments@[i as int].sections,
                    self.content_among(first, i as int, k as int),
                decreases s.len() - k,
            {
                let off: u32 = s[k].offset;
                let ghost before = first;
                if off != 0 {
                    let lower = match first {
                        Some(f) => off < f,
                        None => true,
                    };
                    if lower {
                        assert(self.segments@[i as int].sections@[k as int].offset == off);
                        first = Some(off);
                    }
                }
                k += 1;
            }
            i += 1;
        }
        match first {
            Some(f) => {
                proof {
                    assert(self.first_content(f as int));
                    let other = choose|off: int| self.first_content(off);
                    assert(self.first_content(other));
                    assert(other == f);
                }
                if f as u64 > end {
                    (f as u64 - end) as usize
                } else {
                    0
                }
            },
            None => 0,
        }
    }

    /// `first` is the lowest place among the sections of the first `i`
    /// segments and the first `k` sections of the next
    spec fn content_among(self, first: Option<u32>, i: int, k: int) -> bool {
        let seen = |a: int, b: int|
            0 <= b < self.segments@[a].sections.len() && (0 <= a < i || (a == i && a
                < self.segments.len() && b < k));
        match first {
            Some(f) => {
                &&& f != 0
                &&& exists|a: int, b: int| seen(a, b) && (#[trigger] self.segments@[a].sections@[b]).offset == f
                &&& forall|a: int, b: int|
                    seen(a, b) && (#[trigger] self.segments@[a].sections@[b]).offset != 0
                        ==> self.segments@[a].sections@[b].offset >= f
            },
            None => forall|a: int, b: int|
                seen(a, b) ==> (#[trigger] self.segments@[a].sections@[b]).offset == 0,
        }
    }

    /// The layout of the new segments, where they fit. How far they are from
    /// the text does not matter: a site that reaches none is left alone.
    pub open spec fn layout(self) -> Option<Layout> {
        match (self.segment_index("__LINKEDIT"@), self.segment_index("__TEXT"@)) {
            (Some(i), Some(t)) => {
                let linkedit = self.segments@[i];
                let text_addr = linkedit.vmaddr.wrapping_add(PAGE);
                if linkedit.fileoff % PAGE == 0 && linkedit.vmaddr % PAGE == 0 && self.last_in_file(
                    linkedit,
                ) {
                    Some(Layout { data_addr: linkedit.vmaddr, text_addr })
                } else {
                    None
                }
            },
            _ => None,
        }
    }

    pub open spec fn last_in_file(self, s: Segment) -> bool {
        forall|i: int|
            0 <= i < self.segments.len() ==> (#[trigger] self.segments@[i]).fileoff <= s.fileoff
    }

    /// What is said where they do not
    pub open spec fn layout_error(self, e: Error) -> bool {
        match (self.segment_index("__LINKEDIT"@), self.segment_index("__TEXT"@)) {
            (None, _) => e is MissingSegment && e->MissingSegment_0@ == "__LINKEDIT"@,
            (_, None) => e is MissingSegment && e->MissingSegment_0@ == "__TEXT"@,
            (Some(i), Some(t)) => {
                let linkedit = self.segments@[i];
                e is BadLayout && e->BadLayout_0@ == (if linkedit.fileoff % PAGE != 0
                    || linkedit.vmaddr % PAGE != 0 {
                    "__LINKEDIT is not page aligned"@
                } else {
                    "__LINKEDIT is not last in the file"@
                })
            },
        }
    }

    /// Virtual addresses the new segments will occupy: the `__STUBD` data
    /// page and the `__STUB` text right after it. Both take over the range
    /// currently assigned to `__LINKEDIT`, which is pushed up in memory.
    pub fn plan_layout(&self) -> (r: Result<Layout, Error>)
        ensures
            match r {
                Ok(l) => self.layout() == Some(l),
                Err(e) => self.layout() is None && self.layout_error(e),
            },
    {
        let linkedit: &Segment = match self.segment("__LINKEDIT") {
            Some(s) => s,
            None => {
                return Err(Error::MissingSegment("__LINKEDIT"));
            },
        };
        if self.segment("__TEXT").is_none() {
            return Err(Error::MissingSegment("__TEXT"));
        }
        if linkedit.fileoff % PAGE != 0 || linkedit.vmaddr % PAGE != 0 {
            return Err(Error::BadLayout("__LINKEDIT is not page aligned".to_owned()));
        }
        let mut i: usize = 0;
        while i < self.segments.len()
            invariant
                i <= self.segments.len(),
                self.segment_index("__LINKEDIT"@) matches Some(k) && *linkedit == self.segments@[k],
                self.segment_index("__TEXT"@) is Some,
                linkedit.fileoff % PAGE == 0,
                linkedit.vmaddr % PAGE == 0,
                forall|k: int|
                    0 <= k < i ==> (#[trigger] self.segments@[k]).fileoff <= linkedit.fileoff,
            decreases self.segments.len() - i,
        {
            if self.segments[i].fileoff > linkedit.fileoff {
                return Err(Error::BadLayout("__LINKEDIT is not last in the file".to_owned()));
            }
            i += 1;
        }
        let data_addr: u64 = linkedit.vmaddr;
        let text_addr: u64 = data_addr.wrapping_add(PAGE);
        Ok(Layout { data_addr, text_addr })
    }
}

/// Where the new segments go in memory
#[derive(Debug, Clone, Copy)]
pub struct Layout {
    pub data_addr: u64,
    pub text_addr: u64,
}

impl Error {
    /// The message that tells of the error
    pub open spec fn told(self) -> Seq<char> {
        match self {
            Error::Truncated(what) => "file truncated while reading "@ + what@,
            Error::BadMagic(m) => "not a 64-bit little-endian Mach-O (magic "@ + text::hex(m as nat)
                + ")"@,
            Error::NotArm64Executable => "not an arm64 MH_EXECUTE image"@,
            Error::MissingSegment(s) => "no "@ + s@ + " segment"@,
            Error::MissingCommand(c) => "no "@ + c@ + " load command"@,
            Error::NoHeaderRoom { need, have } => "load commands would need "@ + text::decimal(
                need as nat,
            ) + " bytes but only "@ + text::decimal(have as nat)
                + " fit before the first section; relink the guest with -Wl,-headerpad,0x1000"@,
            Error::BadLayout(s) => "unsupported layout: "@ + s@,
        }
    }

    pub fn message(&self) -> (r: String)
        ensures
            r@ == self.told(),
    {
        let mut out = String::new();
        match self {
            Error::Truncated(what) => {
                out.append("file truncated while reading ");
                out.append(what);
            },
            Error::BadMagic(m) => {
                out.append("not a 64-bit little-endian Mach-O (magic ");
                push_hex(&mut out, *m as u64);
                out.append(")");
            },
            Error::NotArm64Executable => {
                out.append("not an arm64 MH_EXECUTE image");
            },
            Error::MissingSegment(s) => {
                out.append("no ");
                out.append(s);
                out.append(" segment");
            },
            Error::MissingCommand(c) => {
                out.append("no ");
                out.append(c);
                out.append(" load command");
            },
            Error::NoHeaderRoom { need, have } => {
                out.append("load commands would need ");
                push_decimal(&mut out, *need as u64);
                out.append(" bytes but only ");
                push_decimal(&mut out, *have as u64);
                out.append(
                    " fit before the first section; relink the guest with -Wl,-headerpad,0x1000",
                );
            },
            Error::BadLayout(s) => {
                out.append("unsupported layout: ");
                out.append(s.as_str());
            },
        }
        assert(out@ =~= self.told());
        out
    }
}

/// `v` rounded up to a multiple of `align`, a power of two
pub fn round_up(v: u64, align: u64) -> (r: u64)
    requires
        exists|k: nat| align == #[trigger] vstd::arithmetic::power2::pow2(k),
        v + align <= u64::MAX,
    ensures
        r == rounded_up(v as int, align as int),
        r >= v,
        r < v + align,
        r % align == 0,
{
    proof {
        let k = choose|k: nat| align == #[trigger] vstd::arithmetic::power2::pow2(k);
        vstd::arithmetic::power2::lemma_pow2_pos(k);
    }
    let n: u64 = (v + align - 1) / align;
    proof {
        let d = (v + align - 1) as int;
        vstd::arithmetic::div_mod::lemma_fundamental_div_mod(d, align as int);
        vstd::arithmetic::div_mod::lemma_mod_bound(d, align as int);
        assert(n * align == align * n) by (nonlinear_arith);
        vstd::arithmetic::div_mod::lemma_mod_multiples_basic(n as int, align as int);
    }
    n * align
}

/// The segment of an address is one that covers it and is in the file, and is
/// found where there is one.
pub proof fn an_address_is_found_in_its_segment(s: Seq<Segment>, addr: u64, from: int, i: int)
    requires
        0 <= from,
    ensures
        covering_from(s, addr, from) matches Some(k) ==> from <= k < s.len() && s[k].filesize > 0
            && s[k].vmaddr <= addr < s[k].vmaddr + s[k].vmsize,
        from <= i < s.len() && s[i].filesize > 0 && s[i].vmaddr <= addr < s[i].vmaddr + s[i].vmsize
            ==> covering_from(s, addr, from) is Some && covering_from(s, addr, from).unwrap() <= i,
    decreases s.len() - from,
{
    if from < s.len() {
        an_address_is_found_in_its_segment(s, addr, from + 1, i);
    }
}

/// A section is found by its name, the first that has it.
pub proof fn a_section_is_found_by_its_name(s: Seq<Section>, name: Seq<char>, from: int, i: int)
    requires
        0 <= from <= i < s.len(),
        s[i].name@ == name,
        forall|k: int| from <= k < i ==> (#[trigger] s[k]).name@ != name,
    ensures
        section_from(s, name, from) == Some(i),
    decreases i - from,
{
    if from < i {
        assert(s[from].name@ != name);
        a_section_is_found_by_its_name(s, name, from + 1, i);
    }
}

} // verus!
