use derp::decode::{decode, Class};
use derp::link::{judge, Verdict};
use derp::macho::{
    round_up, Error, MachO, CPU_TYPE_ARM64, LC_CODE_SIGNATURE, LC_FUNCTION_STARTS, LC_SEGMENT_64,
    LC_SYMTAB, MH_EXECUTE, MH_MAGIC_64, STUB_TEXT_SEGMENT,
};
use derp::rewrite::{self, parse_rate, rewrite, scan, Options};
use derp::rooms::plan;
use derp::sites::SiteKind;
use derp::stubdata;
use derp::trampoline::{addr_of_word, emit_common, Builder, Guard, Tail};

const BASE: u64 = 0x1_0000_0000;
const TEXT: u64 = BASE + 0x1000;
const LINKEDIT: u64 = 0x4000;

/// Two functions: a loop with a load and a call, and one that stores
const WORDS: [u32; 9] = [
    0xD503_201F, // nop
    0xF940_0041, // ldr x1, [x2]
    0x9400_0005, // bl second
    0xB5FF_FFA0, // cbnz x0, first
    0xD65F_03C0, // ret
    0xD503_201F, // nop
    0xD503_201F, // nop
    0xF900_0041, // second: str x1, [x2]
    0xD65F_03C0, // ret
];

fn name16(name: &str) -> [u8; 16] {
    let mut out = [0u8; 16];
    out[..name.len()].copy_from_slice(name.as_bytes());
    out
}

fn u32s(out: &mut Vec<u8>, v: &[u32]) {
    for x in v {
        out.extend(x.to_le_bytes());
    }
}

fn u64s(out: &mut Vec<u8>, v: &[u64]) {
    for x in v {
        out.extend(x.to_le_bytes());
    }
}

fn segment(name: &str, at: [u64; 4], sections: u32) -> Vec<u8> {
    let mut c = Vec::new();
    u32s(&mut c, &[LC_SEGMENT_64, 72 + 80 * sections]);
    c.extend(name16(name));
    u64s(&mut c, &at);
    u32s(&mut c, &[5, 5, sections, 0]);
    c
}

/// A small arm64 executable
fn image() -> Vec<u8> {
    let mut linkedit = Vec::new();
    // Function starts: 0x1000 above the base, then 0x1C further on
    linkedit.extend([0x80, 0x20, 0x1C, 0, 0, 0, 0, 0]);
    let strings = b"\0_first\0_second\0";
    let symtab = LINKEDIT + 8;
    for (strx, addr) in [(8u32, TEXT + 0x1C), (1, TEXT)] {
        u32s(&mut linkedit, &[strx]);
        linkedit.extend([0x0F, 1, 0, 0]);
        u64s(&mut linkedit, &[addr]);
    }
    let strtab = LINKEDIT + linkedit.len() as u64;
    linkedit.extend(strings);
    while linkedit.len() % 16 != 0 {
        linkedit.push(0);
    }
    let signature = LINKEDIT + linkedit.len() as u64;
    linkedit.extend([0xEE; 32]);

    let mut commands: Vec<Vec<u8>> = Vec::new();
    let mut text = segment("__TEXT", [BASE, 0x4000, 0, 0x4000], 1);
    text.extend(name16("__text"));
    text.extend(name16("__TEXT"));
    u64s(&mut text, &[TEXT, 4 * WORDS.len() as u64]);
    u32s(&mut text, &[0x1000, 2, 0, 0, 0x8000_0400, 0, 0, 0]);
    commands.push(text);
    let size = linkedit.len() as u64;
    commands.push(segment("__LINKEDIT", [BASE + 0x4000, 0x4000, LINKEDIT, size], 0));
    for c in [
        vec![LC_SYMTAB, 24, symtab as u32, 2, strtab as u32, strings.len() as u32],
        vec![LC_FUNCTION_STARTS, 16, LINKEDIT as u32, 8],
        vec![LC_CODE_SIGNATURE, 16, signature as u32, 32],
    ] {
        let mut bytes = Vec::new();
        u32s(&mut bytes, &c);
        commands.push(bytes);
    }
    let mut out = Vec::new();
    let total: usize = commands.iter().map(Vec::len).sum();
    u32s(
        &mut out,
        &[
            MH_MAGIC_64,
            CPU_TYPE_ARM64,
            0,
            MH_EXECUTE,
            commands.len() as u32,
            total as u32,
            0x20_0085,
            0,
        ],
    );
    for c in commands {
        out.extend(c);
    }
    out.resize(0x1000, 0);
    u32s(&mut out, &WORDS);
    out.resize(LINKEDIT as usize, 0);
    out.extend(linkedit);
    out
}

#[test]
fn an_executable_is_read() {
    let m = MachO::parse(image()).unwrap();
    assert_eq!(m.header.filetype, MH_EXECUTE);
    assert_eq!(m.segments.len(), 2);
    let text = m.text_section().unwrap();
    assert_eq!((text.addr, text.size), (TEXT, 36));
    assert_eq!(m.function_starts().unwrap(), [TEXT, TEXT + 0x1C]);
    let symbols = m.symbols();
    assert_eq!(
        symbols,
        [(TEXT, "_first".to_string()), (TEXT + 0x1C, "_second".to_string())]
    );
    assert_eq!(m.addr_to_offset(TEXT + 4), Some(0x1004));
    assert_eq!(m.read_word(TEXT + 4), Some(WORDS[1]));
    assert_eq!(m.read_word(0), None);
    assert!(m.command(LC_SYMTAB).is_some());
    assert!(m.command(0x99).is_none());
    assert!(m.segment("__DATA").is_none());
    assert_eq!(m.segment_for_addr(BASE + 0x4001).unwrap().name, "__LINKEDIT");
    assert!(m.data_in_code().is_empty());
    assert_eq!(m.header_room(), 0x1000 - 32 - (152 + 72 + 24 + 16 + 16));
    assert!(m.is_emittable());
    assert_eq!(m.plan_stub().unwrap().name, "__LINKEDIT");
    assert_eq!(round_up(0x4001, 0x4000), 0x8000);
}

#[test]
fn names_that_are_not_text_are_replaced() {
    let mut bytes = image();
    // The name of the section, behind the header and its segment
    bytes[32 + 72] = 0xFF;
    let m = MachO::parse(bytes).unwrap();
    assert_eq!(m.segments[0].sections[0].name, "\u{FFFD}_text");
    assert!(matches!(m.text_section(), Err(Error::MissingSegment(_))));
}

#[test]
fn files_that_are_not_executables() {
    assert!(matches!(MachO::parse(vec![1, 2]), Err(Error::Truncated(_))));
    let mut other = image();
    other[0] = 0;
    let e = MachO::parse(other).err().unwrap();
    assert!(matches!(e, Error::BadMagic(0xFEED_FA00)));
    assert!(e.message().contains("0xfeedfa00"));
    let mut intel = image();
    intel[4] = 7;
    assert!(matches!(MachO::parse(intel), Err(Error::NotArm64Executable)));
    let mut cut = image();
    cut.truncate(100);
    assert!(matches!(MachO::parse(cut), Err(Error::Truncated(_))));
    let mut bare = image();
    // __LINKEDIT under another name
    bare[32 + 152 + 8] = b'-';
    let m = MachO::parse(bare).unwrap();
    assert!(matches!(m.plan_stub(), Err(Error::MissingSegment(_))));
    let mut startless = image();
    startless[32 + 152 + 72 + 24] = 0x99;
    let m = MachO::parse(startless).unwrap();
    assert!(matches!(m.function_starts(), Err(Error::MissingCommand(_))));
}

#[test]
fn a_copy_reads_like_its_original() {
    let m = MachO::parse(image()).unwrap();
    let copy = m.emit_stub(&[(TEXT, 0xD65F_03C0)], &[]).unwrap();
    let c = MachO::parse(copy).unwrap();
    assert_eq!(c.read_word(TEXT), Some(0xD65F_03C0));
    for (i, word) in WORDS.iter().enumerate().skip(1) {
        assert_eq!(c.read_word(TEXT + 4 * i as u64), Some(*word));
    }
    assert_eq!(c.symbols(), m.symbols());
    assert_eq!(c.function_starts().unwrap(), m.function_starts().unwrap());
    // The signature no longer holds
    assert!(c.command(LC_CODE_SIGNATURE).is_none());
    assert!(matches!(
        m.emit_stub(&[(8, 0)], &[]),
        Err(Error::BadLayout(_))
    ));
    let two = m.emit(&[], &[1, 2, 3], &[4, 5, 6, 7]).unwrap();
    let t = MachO::parse(two).unwrap();
    assert_eq!(t.segments.len(), 4);
    assert_eq!(t.symbols(), m.symbols());
}

#[test]
fn a_program_is_rewritten() {
    let m = MachO::parse(image()).unwrap();
    let opts = Options { seed: 7, mem_rate: (1, 1) };
    let r = rewrite(&m, &opts).unwrap();
    assert_eq!(r.stats.functions, 2);
    assert_eq!((r.stats.branch_sites, r.stats.call_sites), (1, 1));
    assert_eq!((r.stats.mem_candidates, r.stats.mem_sites), (2, 2));
    assert_eq!(r.stats.mem_site_addrs, [TEXT + 4, TEXT + 0x1C]);
    assert_eq!(r.stats.unreachable_sites, 0);
    assert_eq!(judge(&r.stats), Verdict::Fine);
    assert_eq!(r.sites.len(), 4);
    let out = MachO::parse(r.image).unwrap();
    let stubs = out.segment(STUB_TEXT_SEGMENT).unwrap();
    for (i, word) in WORDS.iter().enumerate() {
        let addr = TEXT + 4 * i as u64;
        let now = out.read_word(addr).unwrap();
        match r.sites.iter().find(|s| s.addr == addr) {
            None => assert_eq!(now, *word),
            Some(s) => {
                let there = match decode(now, addr) {
                    Class::B { target } | Class::Bl { target } => target,
                    Class::Cbz { target, .. } => target,
                    other => panic!("{other:?}"),
                };
                assert!(stubs.contains_addr(there));
                assert!(stubs.contains_addr(s.yield_pc));
            }
        }
    }
    let kinds: Vec<SiteKind> = r.sites.iter().map(|s| s.kind).collect();
    assert!(kinds.contains(&SiteKind::Load) && kinds.contains(&SiteKind::Store));
    assert!(kinds.contains(&SiteKind::Branch) && kinds.contains(&SiteKind::Call));
    // What the supervisor finds in front of the stubs
    let from = stubs.fileoff as usize;
    let info = stubdata::find(&out.data[from..]).unwrap();
    assert_eq!((info.sites, info.mem_sites, info.seed), (4, 2, 7));
    assert_eq!(stubdata::find(&out.data[..64]), None);
    assert_eq!(stubdata::find(&[]), None);
    // A scan says the same
    assert_eq!(scan(&m, &opts).unwrap().stub_bytes, r.stats.stub_bytes);
}

#[test]
fn loads_and_stores_are_hooked_by_rate() {
    let m = MachO::parse(image()).unwrap();
    let none = scan(&m, &Options::default()).unwrap();
    assert_eq!((none.mem_candidates, none.mem_sites), (2, 0));
    assert_eq!((none.branch_sites, none.call_sites), (1, 1));
    assert_eq!(parse_rate("0"), Some((0, 1)));
    assert_eq!(parse_rate("1"), Some((1, 1)));
    assert_eq!(parse_rate("1/16"), Some((1, 16)));
    assert_eq!(parse_rate("17/16"), None);
    assert_eq!(parse_rate("1/0"), None);
    assert_eq!(parse_rate("x"), None);
    // Nothing is out of reach in a program this small
    assert!(plan(&m, &none).is_none());
}

#[test]
fn a_program_that_cannot_be_rewritten() {
    let mut startless = image();
    startless[32 + 152 + 72 + 24] = 0x99;
    let m = MachO::parse(startless).unwrap();
    let e = rewrite(&m, &Options::default()).err().unwrap();
    assert!(matches!(e, rewrite::Error::MachO(Error::MissingCommand(_))));
    assert!(!e.message().is_empty());
    let far = rewrite::Error::OutOfRange { site: 0x10, target: 0x20 };
    assert!(far.message().contains("0x10") && far.message().contains("0x20"));
}

#[test]
fn stubs_are_built_where_they_reach() {
    let mut b = Builder::new(TEXT + 0x4000, &Vec::new(), BASE);
    assert!(b.stub(TEXT, Guard::Always, false, Tail::Jump { target: TEXT + 8, island: false }));
    assert_eq!((b.patches.len(), b.sites.len(), b.unreachable), (1, 1, 0));
    assert_eq!(b.patches[0].0, TEXT);
    assert!(matches!(decode(b.patches[0].1, TEXT), Class::B { .. }));
    assert!(b.counter_stub(TEXT + 16, 3));
    // Farther than a branch goes, and no room nearer
    let far = TEXT + 0x4000 + 0x1000_0000;
    assert!(!b.stub(far, Guard::Always, false, Tail::Replay(0xD503_201F)));
    assert_eq!(b.unreachable, 1);
    assert_eq!(addr_of_word(0x1000, 3), 0x100C);
    assert!(!emit_common(TEXT).is_empty());
}

fn put32(bytes: &mut [u8], at: usize, v: u32) {
    bytes[at..at + 4].copy_from_slice(&v.to_le_bytes());
}

#[test]
fn a_retry_loop_is_left_alone() {
    let mut bytes = image();
    let span = [
        0xC85F_7C20, // ldxr x0, [x1]
        0xC802_7C20, // stxr w2, x0, [x1]
        0x35FF_FFC2, // cbnz w2, first
    ];
    for (i, word) in span.iter().enumerate() {
        put32(&mut bytes, 0x1000 + 4 * i, *word);
    }
    let m = MachO::parse(bytes).unwrap();
    let r = rewrite(&m, &Options { seed: 7, mem_rate: (1, 1) }).unwrap();
    assert_eq!(r.stats.exclusive_words, 3);
    let at: Vec<u64> = r.sites.iter().map(|s| s.addr).collect();
    // The branch behind the retry is one like any other
    assert_eq!(at, [TEXT + 12, TEXT + 0x1C]);
    assert_eq!(r.stats.branch_sites + r.stats.mem_sites, 2);
    assert_eq!(r.stats.mem_site_addrs, [TEXT + 0x1C]);
    let out = MachO::parse(r.image).unwrap();
    for (i, word) in span.iter().enumerate() {
        assert_eq!(out.read_word(TEXT + 4 * i as u64), Some(*word));
    }
}

#[test]
fn a_distant_stub_is_laid_out_too() {
    let mut bytes = image();
    let far = BASE + 0x1000_0000;
    bytes[32 + 152 + 24..32 + 152 + 32].copy_from_slice(&far.to_le_bytes());
    let m = MachO::parse(bytes).unwrap();
    let layout = m.plan_layout().unwrap();
    assert_eq!((layout.data_addr, layout.text_addr), (far, far + 0x4000));
    // The sites do not reach it: they are counted and left as they are
    let r = rewrite(&m, &Options { seed: 7, mem_rate: (0, 1) }).unwrap();
    assert_eq!((r.stats.unreachable_sites, r.sites.len()), (2, 0));
}

#[test]
fn a_tight_header_loses_what_nothing_reads() {
    // Where the first section begins
    let at = 32 + 72 + 48;
    let mut bytes = image();
    put32(&mut bytes, at, 32 + 568);
    let m = MachO::parse(bytes).unwrap();
    let out = MachO::parse(m.emit(&[], &[1], &[2]).unwrap()).unwrap();
    assert!(out.command(LC_FUNCTION_STARTS).is_none());
    assert!(out.command(LC_SYMTAB).is_some());
    assert_eq!(out.header.sizeofcmds, 552);
    let mut bytes = image();
    put32(&mut bytes, at, 32 + 567);
    let m = MachO::parse(bytes).unwrap();
    assert!(matches!(
        m.emit(&[], &[1], &[2]),
        Err(Error::NoHeaderRoom { need: 568, have: 567 })
    ));
    // With room nothing is lost
    let m = MachO::parse(image()).unwrap();
    let out = MachO::parse(m.emit(&[(TEXT, 5)], &[1], &[2, 3]).unwrap()).unwrap();
    assert!(out.command(LC_FUNCTION_STARTS).is_some());
    assert!(out.command(LC_CODE_SIGNATURE).is_none());
    let names: Vec<&str> = out.segments.iter().map(|s| s.name.as_str()).collect();
    assert_eq!(names, ["__TEXT", "__STUBD", "__STUB", "__LINKEDIT"]);
    assert_eq!(out.segments[1].vmaddr, BASE + 0x4000);
    assert_eq!(out.segments[2].vmaddr, BASE + 0x8000);
    assert_eq!(out.data[out.segments[1].fileoff as usize], 1);
    let stub = out.segments[2].fileoff as usize;
    assert_eq!(out.data[stub..stub + 2], [2, 3]);
    assert_eq!(out.read_word(TEXT), Some(5));
    assert_eq!(out.read_word(TEXT + 4), Some(WORDS[1]));
}
