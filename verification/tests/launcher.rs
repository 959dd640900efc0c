use derp::cache::{
    cache_dir_for, cache_name, program_of, sites_path, temporary_name, with_dsym_suffix,
};
use derp::environ::{
    environment, external_objects, fixed_env, guest_env, is_absolute, layered, public_path,
    push_assignments, run_dir_name, shared_file_name, Object,
};
use derp::frames::{answer, drain, frame, reply, reply_head, request, spawned, Request};
use derp::hash::{fold, BASIS};
use derp::link::{
    describe_plan, judge, makes_library, out_of_reach, output_of, relink_report, stats_text, Verdict,
};
use derp::mask::{Expiry, Mask, MAX_DEFERRED};
use derp::rewrite::{Options, Stats};
use derp::rooms::{assembly, Plan};
use derp::shared::{MSG_REPORT, MSG_SPAWN, MSG_SPAWNED};

fn texts(v: &[&str]) -> Vec<String> {
    v.iter().map(|s| s.to_string()).collect()
}

fn pairs(v: &[(&str, &str)]) -> Vec<(String, String)> {
    v.iter().map(|(k, v)| (k.to_string(), v.to_string())).collect()
}

fn stats() -> Stats {
    Stats {
        functions: 10,
        stack_tainted_functions: 1,
        words: 1000,
        branch_sites: 20,
        call_sites: 5,
        counter_sites: 2,
        mem_candidates: 9,
        mem_sites: 2,
        unreachable_sites: 0,
        unnamed_entries: 3,
        unnamed_addrs: Vec::new(),
        rooms: 0,
        room_bytes: 0,
        sites_per_mb: Vec::new(),
        exclusive_words: 4,
        data_in_code_words: 6,
        skipped_blr_x30: 7,
        stub_bytes: 512,
        mem_site_addrs: vec![0x1_0000_4000, 0x1_0000_4010],
    }
}

#[test]
fn a_rewritten_file_is_named_after_how_it_was_made() {
    let opts = Options { seed: 7, mem_rate: (1, 16) };
    let name = cache_name("server", &opts, 340_282_366_920_938_463_463_374_607_431_768_211_455, 99);
    assert_eq!(
        name,
        "server.rw4-7-1of16-340282366920938463463374607431768211455-99"
    );
    assert_eq!(program_of(&name), "server");
    assert_eq!(program_of("my.rw4-tool"), "my");
    assert_eq!(program_of("plain"), "plain");
    assert_eq!(sites_path("a/b"), "a/b.sites");
    assert_eq!(with_dsym_suffix("a/b"), "a/b.dSYM");
    assert_eq!(temporary_name("server", 12, 3), ".server.rw-tmp-12-3");
}

#[test]
fn installed_programs_are_cached_elsewhere() {
    assert_eq!(cache_dir_for("/Users/me/a.out"), None);
    let dir = cache_dir_for("/usr/bin/true").unwrap();
    assert_eq!(dir, format!("{:016x}", fold(BASIS, b"/usr/bin/true")));
    assert!(cache_dir_for("/opt/homebrew/bin/x").is_some());
    assert!(cache_dir_for("/usrlocal/x").is_none());
}

#[test]
fn later_layers_replace_earlier_ones() {
    let r = layered(&vec![
        pairs(&[("A", "1"), ("B", "2")]),
        pairs(&[("C", "3"), ("A", "4")]),
    ]);
    assert_eq!(r, pairs(&[("A", "4"), ("B", "2"), ("C", "3")]));
    let fixed = fixed_env();
    assert_eq!(fixed.len(), 6);
    assert_eq!(fixed[0], ("PATH".to_string(), "/usr/bin:/bin:/usr/sbin:/sbin".to_string()));
    assert_eq!(fixed[3], ("TZ".to_string(), "UTC".to_string()));
}

#[test]
fn what_a_guest_is_told_of_its_run() {
    assert_eq!(
        guest_env(5, true, "x".into(), None),
        pairs(&[("REWRITE_SEED", "5"), ("REWRITE_PASSIVE", "1"), ("REWRITE_EXTERNAL", "x")])
    );
    assert_eq!(
        guest_env(5, false, "x".into(), Some(("/tmp/s".into(), 3))),
        pairs(&[
            ("REWRITE_SEED", "5"),
            ("REWRITE_EXTERNAL", "x"),
            ("REWRITE_SHARED", "/tmp/s"),
            ("REWRITE_PROC", "3")
        ])
    );
}

#[test]
fn standard_descriptors_are_told_at_one_width() {
    let none = Object { pipe: false, dev: 5, ino: 6 };
    let pipe = Object { pipe: true, dev: 16_777_230, ino: 42 };
    let quiet = external_objects(none, none, none);
    assert_eq!(
        quiet,
        "00000000000:00000000000000000000,00000000000:00000000000000000000,\
         00000000000:00000000000000000000"
    );
    let some = external_objects(none, pipe, none);
    assert_eq!(some.len(), quiet.len());
    assert_eq!(&some[33..65], "00016777230:00000000000000000042");
    assert_eq!(run_dir_name(7), "rewrite-run-0000000007");
    assert_eq!(run_dir_name(7).len(), run_dir_name(u32::MAX).len());
    assert_eq!(shared_file_name(7, 1).len(), shared_file_name(4_000_000_000, 99).len());
}

#[test]
fn a_guests_environment() {
    let inherited = vec![
        (b"HOME".to_vec(), b"/me".to_vec()),
        (b"DYLD_INSERT_LIBRARIES".to_vec(), b"old".to_vec()),
        (b"REWRITE_PROC".to_vec(), b"9".to_vec()),
        (b"TERM".to_vec(), b"\xff".to_vec()),
    ];
    let set = pairs(&[("HOME", "/new")]);
    let debug = pairs(&[("REWRITE_TRACE", "/t")]);
    let dylib = "/lib/s.dylib".to_string();
    assert_eq!(
        environment(Some(&inherited), Some(&dylib), &debug, &set),
        [
            b"TERM=\xff".to_vec(),
            b"DYLD_INSERT_LIBRARIES=/lib/s.dylib".to_vec(),
            b"HOME=/new".to_vec()
        ]
    );
    assert_eq!(
        environment(None, None, &debug, &set),
        [b"REWRITE_TRACE=/t".to_vec(), b"HOME=/new".to_vec()]
    );
    let mut out = vec![b"A=1".to_vec()];
    push_assignments(&mut out, &set);
    assert_eq!(out, [b"A=1".to_vec(), b"HOME=/new".to_vec()]);
}

#[test]
fn paths_are_compared_without_private() {
    assert_eq!(public_path("/private/tmp/x"), "/tmp/x");
    assert_eq!(public_path("/private/var"), "/var");
    assert_eq!(public_path("/private/variety"), "/private/variety");
    assert_eq!(public_path("/home"), "/home");
    assert!(is_absolute("/a"));
    assert!(!is_absolute("a"));
    assert!(!is_absolute(""));
}

#[test]
fn frames_read_back_however_they_arrive() {
    let bytes = frame(MSG_SPAWN, 7, &b"/bin/x".to_vec());
    assert_eq!(bytes[..9], [11, 0, 0, 0, 1, 7, 0, 0, 0]);
    let mut buf = bytes[..5].to_vec();
    assert!(drain(&mut buf).is_empty());
    buf.extend(&bytes[5..]);
    buf.extend(frame(MSG_REPORT, 2, &Vec::new()));
    buf.push(1);
    let got = drain(&mut buf);
    assert_eq!(got.len(), 2);
    assert_eq!((got[0].kind, got[0].proc_index), (MSG_SPAWN, 7));
    assert_eq!(got[0].payload, b"/bin/x");
    assert_eq!((got[1].kind, got[1].proc_index), (MSG_REPORT, 2));
    assert!(got[1].payload.is_empty());
    assert_eq!(buf, [1]);
    // Too short to be a frame: it stays
    let mut bad = vec![4, 0, 0, 0, 1, 2, 3, 4];
    assert!(drain(&mut bad).is_empty());
    assert_eq!(bad.len(), 8);
}

#[test]
fn replies_read_back() {
    let r = reply(-3, &b"abc".to_vec());
    assert_eq!(r[8..], *b"abc");
    assert_eq!(reply_head(&r[..8].to_vec()), (-3, 3));
    assert_eq!(answer(0, b"abc".to_vec()), Ok(b"abc".to_vec()));
    assert_eq!(answer(8, b"abc".to_vec()), Err(8));
}

#[test]
fn what_guests_ask() {
    let mut buf = frame(MSG_SPAWN, 7, &b"/bin/x".to_vec());
    buf.extend(frame(MSG_SPAWNED, 7, &spawned(3, 4321)));
    buf.extend(frame(MSG_REPORT, 2, &b"a=1\n\xff".to_vec()));
    buf.extend(frame(99, 2, &Vec::new()));
    buf.extend(frame(MSG_SPAWNED, 7, &vec![1, 2]));
    let mut asked = drain(&mut buf).into_iter().map(request);
    assert!(matches!(asked.next(), Some(Request::Program(p)) if p == b"/bin/x"));
    assert!(matches!(
        asked.next(),
        Some(Request::Spawned { child: 3, pid: 4321 })
    ));
    // Text that is not UTF-8 is replaced, not refused
    assert!(matches!(
        asked.next(),
        Some(Request::Report { from: 2, text }) if text == "a=1\n\u{FFFD}"
    ));
    assert!(matches!(asked.next(), Some(Request::Unknown(99))));
    assert!(matches!(asked.next(), Some(Request::Unknown(MSG_SPAWNED))));
    assert!(asked.next().is_none());
}

#[test]
fn a_mask_defers_until_it_is_overdue() {
    let mask = "server 1f40\nclient 10\nserver zz\nserver 8\n";
    let mut m = Mask::load(mask, "server", 0x1000);
    assert_eq!(m.pcs, [0x1008, 0x2F40]);
    assert_eq!(m.expired_at(0x1F40), Expiry::Switch);
    assert_eq!(m.expired_at(0x2F40), Expiry::Deferred);
    assert_eq!(m.expired_at(0x1008), Expiry::Deferred);
    assert_eq!(m.deferred, 2);
    m.deferred = MAX_DEFERRED;
    assert_eq!(m.expired_at(0x1008), Expiry::Overdue);
    assert_eq!(m.expired_at(0x1008), Expiry::Deferred);
    assert_eq!(m.expired_at(0), Expiry::Switch);
    assert_eq!(m.deferred, 0);
}

#[test]
fn linker_arguments() {
    assert_eq!(output_of(&texts(&["a.o", "-o", "prog"])), Some(2));
    assert_eq!(output_of(&texts(&["a.o", "-o"])), None);
    assert_eq!(output_of(&texts(&["a.o"])), None);
    assert!(makes_library(&texts(&["-o", "x", "-dynamiclib"])));
    assert!(makes_library(&texts(&["-r"])));
    assert!(!makes_library(&texts(&["-o", "x", "-rdynamic"])));
}

#[test]
fn what_a_scan_asks_for_and_says() {
    let mut s = stats();
    assert_eq!(judge(&s), Verdict::Fine);
    s.unreachable_sites = 3;
    assert_eq!(judge(&s), Verdict::Again);
    s.rooms = 2;
    assert_eq!(judge(&s), Verdict::OutOfReach);
    assert_eq!(
        out_of_reach("prog", &s),
        "derp cc: prog: 3 sites out of a b's reach with the 2 rooms it has"
    );
    let plan = Plan {
        rooms: vec![("_rewrite_room_0".into(), 3 << 20)],
        order_file: "_a\n_b\n".into(),
        far_sites: 3,
    };
    assert_eq!(
        relink_report("prog", &plan, &s, &stats()),
        "derp cc: prog: 3 of 28 sites were out of a b's reach; linked again with 1 room (3 MB) \
         in the text; 0 still out of reach"
    );
    assert_eq!(
        describe_plan(&s, &Some(plan)),
        [
            "sites=28 unreachable=3 rooms=2 room_bytes=0",
            "far_sites=3 order_file_lines=2",
            "_rewrite_room_0 3145728 bytes"
        ]
    );
    assert_eq!(
        describe_plan(&stats(), &None),
        [
            "sites=25 unreachable=0 rooms=0 room_bytes=0",
            "every site reaches the stubs: no rooms needed"
        ]
    );
    assert_eq!(
        stats_text(&stats()),
        "functions=10 (stack-tainted 1)\nwords=1000\nbranch_sites=20 call_sites=5\n\
         mem_candidates=9 mem_sites=2\nskipped: exclusive_words=4 data_in_code_words=6 \
         blr_x30=7 unreachable=0 unnamed_entries=3\nstub_bytes=512\nrooms=0 room_bytes=0\n\
         mem_site_addrs=0x100004000,0x100004010"
    );
}

#[test]
fn a_room_in_assembly() {
    let text = assembly("_rewrite_room_0", 4096);
    assert!(text.contains("_rewrite_room_0:"));
    assert!(text.contains("4096"));
}
