//! The environment guests start with. Its size decides where a guest's
//! stack starts, so what differs from run to run has a fixed width.

use vstd::prelude::*;
use crate::bytes::same;
use crate::fields;
use crate::launch::PASSIVE_VAR;
use crate::shared::{EXTERNAL_VAR, PROC_VAR, SHARED_VAR};
use crate::text;
use crate::text::{chars_of, push_decimal, same_text, string_of};
use crate::words;
use crate::words::{after_prefix, push_padded};

verus! {

/// What names the libraries to insert into a process
pub const INSERT_VAR: &'static str = "DYLD_INSERT_LIBRARIES";

/// What carries the run's seed
pub const SEED_VAR: &'static str = "REWRITE_SEED";

pub const QUANTUM_VAR: &'static str = "REWRITE_QUANTUM";

pub const HEAP_VAR: &'static str = "REWRITE_HEAP";

/// With a variable set: in its place if it has one, else at the end
pub open spec fn laid(e: fields::Entries, name: Seq<char>, value: Seq<char>) -> fields::Entries
    decreases e.len(),
{
    if e.len() == 0 {
        seq![(name, value)]
    } else if e[0].0 == name {
        seq![(name, value)] + e.skip(1)
    } else {
        seq![e[0]] + laid(e.skip(1), name, value)
    }
}

/// With the first `n` variables of a layer set
pub open spec fn laid_over(e: fields::Entries, layer: fields::Entries, n: int) -> fields::Entries
    decreases n,
{
    if n <= 0 {
        e
    } else {
        laid(laid_over(e, layer, n - 1), layer[n - 1].0, layer[n - 1].1)
    }
}

/// The first `n` layers, each over those before
pub open spec fn layers_of(layers: Seq<Vec<(String, String)>>, n: int) -> fields::Entries
    decreases n,
{
    if n <= 0 {
        Seq::empty()
    } else {
        let layer = fields::pairs(layers[n - 1]@);
        laid_over(layers_of(layers, n - 1), layer, layer.len() as int)
    }
}

/// No name appears twice.
pub open spec fn names_once(e: fields::Entries) -> bool {
    forall|i: int, j: int| 0 <= i < j < e.len() ==> (#[trigger] e[i]).0 != (#[trigger] e[j]).0
}

fn set(out: &mut Vec<(String, String)>, name: &String, value: &String)
    ensures
        fields::pairs(final(out)@) == laid(fields::pairs(old(out)@), name@, value@),
{
    let ghost e = fields::pairs(out@);
    let n: usize = out.len();
    let mut i: usize = 0;
    assert(e.skip(0) =~= e);
    assert(e.take(0) + laid(e, name@, value@) =~= laid(e, name@, value@));
    while i < n
        invariant
            i <= n == out@.len(),
            e == fields::pairs(out@),
            out@ == old(out)@,
            laid(e, name@, value@) == e.take(i as int) + laid(e.skip(i as int), name@, value@),
        decreases n - i,
    {
        let ghost rest = e.skip(i as int);
        assert(rest.skip(1) =~= e.skip(i + 1));
        if same_text(out[i].0.as_str(), name.as_str()) {
            let p = (name.clone(), value.clone());
            out.set(i, p);
            assert(fields::pairs(out@) =~= e.take(i as int) + (seq![(p.0@, p.1@)] + e.skip(i + 1)));
            return;
        }
        assert(e.take(i as int) + (seq![rest[0]] + laid(e.skip(i + 1), name@, value@)) =~= e.take(
            i + 1,
        ) + laid(e.skip(i + 1), name@, value@));
        i += 1;
    }
    let p = (name.clone(), value.clone());
    out.push(p);
    assert(fields::pairs(out@) =~= e.take(n as int) + seq![(p.0@, p.1@)]);
}

/// Later entries replace earlier ones, so every name appears once: `getenv`
/// returns the first match.
pub fn layered(layers: &Vec<Vec<(String, String)>>) -> (r: Vec<(String, String)>)
    ensures
        fields::pairs(r@) == layers_of(layers@, layers@.len() as int),
{
    let mut out: Vec<(String, String)> = Vec::new();
    assert(fields::pairs(out@) =~= Seq::empty());
    let mut i: usize = 0;
    while i < layers.len()
        invariant
            i <= layers@.len(),
            fields::pairs(out@) == layers_of(layers@, i as int),
        decreases layers@.len() - i,
    {
        let layer = &layers[i];
        let ghost was = fields::pairs(out@);
        let ghost l = fields::pairs(layer@);
        let mut k: usize = 0;
        while k < layer.len()
            invariant
                k <= layer@.len(),
                l == fields::pairs(layer@),
                fields::pairs(out@) == laid_over(was, l, k as int),
            decreases layer@.len() - k,
        {
            assert(l[k as int] == (layer@[k as int].0@, layer@[k as int].1@));
            set(&mut out, &layer[k].0, &layer[k].1);
            k += 1;
        }
        i += 1;
    }
    out
}

/// A variable that was set has its value, every other keeps its own, and no
/// name appears twice.
pub proof fn a_later_layer_wins(
    e: fields::Entries,
    name: Seq<char>,
    value: Seq<char>,
    other: Seq<char>,
)
    ensures
        fields::find(laid(e, name, value), name) == Some(value),
        other != name ==> fields::find(laid(e, name, value), other) == fields::find(e, other),
        names_once(e) ==> names_once(laid(e, name, value)),
    decreases e.len(),
{
    reveal_with_fuel(fields::find, 2);
    let p = laid(e, name, value);
    if e.len() == 0 {
        assert(p.skip(1) =~= e);
    } else if e[0].0 == name {
        assert(p.skip(1) =~= e.skip(1));
    } else {
        let rest = e.skip(1);
        a_later_layer_wins(rest, name, value, other);
        assert(p.skip(1) =~= laid(rest, name, value));
        if names_once(e) {
            assert forall|i: int, j: int| 0 <= i < j < rest.len() implies (#[trigger] rest[i]).0
                != (#[trigger] rest[j]).0 by {
                assert(rest[i] == e[i + 1] && rest[j] == e[j + 1]);
            }
            lemma_names_laid(rest, name, value);
            assert forall|i: int, j: int| 0 <= i < j < p.len() implies (#[trigger] p[i]).0 != (
            #[trigger] p[j]).0 by {
                assert(p[j] == laid(rest, name, value)[j - 1]);
                if i > 0 {
                    assert(p[i] == laid(rest, name, value)[i - 1]);
                } else {
                    let q = laid(rest, name, value)[j - 1].0;
                    if q != name {
                        let k = choose|k: int| 0 <= k < rest.len() && (#[trigger] rest[k]).0 == q;
                        assert(rest[k] == e[k + 1]);
                    }
                }
            }
        }
    }
}

/// Every name of the result is the one that was set, or was there before.
proof fn lemma_names_laid(e: fields::Entries, name: Seq<char>, value: Seq<char>)
    ensures
        forall|i: int|
            0 <= i < laid(e, name, value).len() ==> (#[trigger] laid(e, name, value)[i]).0 == name
                || exists|k: int|
                0 <= k < e.len() && (#[trigger] e[k]).0 == laid(e, name, value)[i].0,
    decreases e.len(),
{
    let p = laid(e, name, value);
    if e.len() > 0 {
        let rest = e.skip(1);
        lemma_names_laid(rest, name, value);
        assert forall|i: int| 0 <= i < p.len() implies (#[trigger] p[i]).0 == name || exists|k: int|
            0 <= k < e.len() && (#[trigger] e[k]).0 == p[i].0 by {
            if e[0].0 == name {
                if i > 0 {
                    assert(p[i] == e[i]);
                }
            } else if i == 0 {
                assert(p[0] == e[0]);
            } else {
                let q = laid(rest, name, value)[i - 1];
                assert(p[i] == q);
                if q.0 != name {
                    let k = choose|k: int| 0 <= k < rest.len() && (#[trigger] rest[k]).0 == q.0;
                    assert(e[k + 1].0 == q.0);
                }
            }
        }
    }
}

/// What every guest of a run-file run starts from, instead of our own
/// environment. Anything else comes from the run file, by value (`env:`) or
/// by name (`pass-env:`).
pub open spec fn fixed() -> fields::Entries {
    seq![
        ("PATH"@, "/usr/bin:/bin:/usr/sbin:/sbin"@),
        ("LANG"@, "C"@),
        ("LC_ALL"@, "C"@),
        ("TZ"@, "UTC"@),
        ("USER"@, "guest"@),
        ("LOGNAME"@, "guest"@),
    ]
}

pub fn fixed_env() -> (r: Vec<(String, String)>)
    ensures
        fields::pairs(r@) == fixed(),
{
    let mut out: Vec<(String, String)> = Vec::new();
    out.push(("PATH".to_owned(), "/usr/bin:/bin:/usr/sbin:/sbin".to_owned()));
    out.push(("LANG".to_owned(), "C".to_owned()));
    out.push(("LC_ALL".to_owned(), "C".to_owned()));
    out.push(("TZ".to_owned(), "UTC".to_owned()));
    out.push(("USER".to_owned(), "guest".to_owned()));
    out.push(("LOGNAME".to_owned(), "guest".to_owned()));
    assert(fields::pairs(out@) =~= fixed());
    out
}

/// What makes a guest process `proc_index` of a run
pub open spec fn joining(
    seed: u64,
    passive: bool,
    external: Seq<char>,
    place: Option<(Seq<char>, u32)>,
) -> fields::Entries {
    let head = seq![(SEED_VAR@, text::decimal(seed as nat))];
    let mode = if passive {
        seq![(PASSIVE_VAR@, "1"@)]
    } else {
        Seq::empty()
    };
    let outside = seq![(EXTERNAL_VAR@, external)];
    let seat = match place {
        Some((path, index)) => seq![(SHARED_VAR@, path), (PROC_VAR@, text::decimal(index as nat))],
        None => Seq::empty(),
    };
    head + mode + outside + seat
}

/// The environment that makes a guest process `proc_index` of the run.
pub fn guest_env(
    seed: u64,
    passive: bool,
    external: String,
    place: Option<(String, u32)>,
) -> (r: Vec<(String, String)>)
    ensures
        fields::pairs(r@) == joining(
            seed,
            passive,
            external@,
            match place {
                Some((path, index)) => Some((path@, index)),
                None => None,
            },
        ),
{
    let mut out: Vec<(String, String)> = Vec::new();
    let mut n = String::new();
    push_decimal(&mut n, seed);
    assert(n@ =~= text::decimal(seed as nat));
    out.push((SEED_VAR.to_owned(), n));
    if passive {
        out.push((PASSIVE_VAR.to_owned(), "1".to_owned()));
    }
    out.push((EXTERNAL_VAR.to_owned(), external));
    let ghost seat = match &place {
        Some((path, index)) => Some((path@, *index)),
        None => None,
    };
    match place {
        Some((path, index)) => {
            let mut n = String::new();
            push_decimal(&mut n, index as u64);
            assert(n@ =~= text::decimal(index as nat));
            out.push((SHARED_VAR.to_owned(), path));
            out.push((PROC_VAR.to_owned(), n));
        },
        None => {},
    }
    assert(fields::pairs(out@) =~= joining(seed, passive, external@, seat));
    out
}

/// The run's quanta and the size of its heaps, as guests are told of them:
/// each as long in every run, since the environment's size places a guest's
/// stack
pub open spec fn measures(quantum: (u32, u32), heap_size: u64) -> Seq<(Seq<char>, Seq<char>)> {
    seq![
        (
            QUANTUM_VAR@,
            words::padded(quantum.0 as nat, 10, 10) + ".."@ + words::padded(
                quantum.1 as nat,
                10,
                10,
            ),
        ),
        (HEAP_VAR@, words::padded(heap_size as nat, 16, 16)),
    ]
}

pub fn run_env(quantum: (u32, u32), heap_size: u64) -> (r: Vec<(String, String)>)
    ensures
        fields::pairs(r@) == measures(quantum, heap_size),
{
    let mut out: Vec<(String, String)> = Vec::new();
    let mut q = String::new();
    push_padded(&mut q, quantum.0 as u64, 10, 10);
    q.append("..");
    push_padded(&mut q, quantum.1 as u64, 10, 10);
    assert(q@ =~= words::padded(quantum.0 as nat, 10, 10) + ".."@ + words::padded(
        quantum.1 as nat,
        10,
        10,
    ));
    out.push((QUANTUM_VAR.to_owned(), q));
    let mut h = String::new();
    push_padded(&mut h, heap_size, 16, 16);
    assert(h@ =~= words::padded(heap_size as nat, 16, 16));
    out.push((HEAP_VAR.to_owned(), h));
    assert(fields::pairs(out@) =~= measures(quantum, heap_size));
    out
}

/// A pipe or socket the launcher was given, or not
#[derive(Debug, Clone, Copy, PartialEq, Eq, Structural)]
pub struct Object {
    /// It is open, and a pipe or a socket.
    pub pipe: bool,
    pub dev: i32,
    pub ino: u64,
}

/// A device number, eleven wide
pub open spec fn device(n: i32) -> Seq<char> {
    if n < 0 {
        seq!['-'] + words::padded(-n as nat, 10, 10)
    } else {
        words::padded(n as nat, 10, 11)
    }
}

/// `dev:ino`
pub open spec fn object_text(o: Object) -> Seq<char> {
    if o.pipe {
        device(o.dev) + seq![':'] + words::padded(o.ino as nat, 10, 20)
    } else {
        device(0) + seq![':'] + words::padded(0, 10, 20)
    }
}

fn push_object(out: &mut String, o: Object)
    ensures
        final(out)@ == old(out)@ + object_text(o),
{
    let (dev, ino): (i32, u64) = if o.pipe {
        (o.dev, o.ino)
    } else {
        (0, 0)
    };
    if dev < 0 {
        out.push('-');
        push_padded(out, (-(dev as i64)) as u64, 10, 10);
    } else {
        push_padded(out, dev as u64, 10, 11);
    }
    out.push(':');
    push_padded(out, ino, 10, 20);
    assert(out@ =~= old(out)@ + object_text(o));
}

/// The objects behind the three standard descriptors
pub open spec fn objects_text(a: Object, b: Object, c: Object) -> Seq<char> {
    object_text(a) + seq![','] + object_text(b) + seq![','] + object_text(c)
}

/// `dev:ino` of the pipes and sockets among our own standard descriptors.
/// Their other end is outside the run, so guests must block on them for
/// real instead of waiting for another guest to make them ready.
///
/// Always three entries of the same width, whatever our descriptors are:
/// the variable's length must not differ between runs. An entry of zeros
/// matches nothing.
pub fn external_objects(a: Object, b: Object, c: Object) -> (r: String)
    ensures
        r@ == objects_text(a, b, c),
{
    let mut out = String::new();
    push_object(&mut out, a);
    out.push(',');
    push_object(&mut out, b);
    out.push(',');
    push_object(&mut out, c);
    assert(out@ =~= objects_text(a, b, c));
    out
}

/// Ten to the `n`
pub open spec fn tens(n: nat) -> nat
    decreases n,
{
    if n == 0 {
        1
    } else {
        10 * tens((n - 1) as nat)
    }
}

proof fn lemma_digits_fit(n: nat, width: nat)
    requires
        n < tens(width),
        width >= 1,
    ensures
        1 <= text::digits(n, 10).len() <= width,
    decreases width,
{
    if n >= 10 {
        if width == 1 {
            reveal_with_fuel(tens, 2);
        }
        lemma_digits_fit(n / 10, (width - 1) as nat);
    }
}

pub proof fn lemma_padded_len(n: nat, width: nat)
    requires
        n < tens(width),
        width >= 1,
    ensures
        words::padded(n, 10, width as int).len() == width,
{
    lemma_digits_fit(n, width);
}

/// The variable that names the launcher's own pipes is as long in every
/// run.
pub proof fn external_objects_are_equally_long(a: Object, b: Object, c: Object)
    ensures
        objects_text(a, b, c).len() == 98,
{
    reveal_with_fuel(tens, 21);
    lemma_object(a);
    lemma_object(b);
    lemma_object(c);
}

proof fn lemma_object(o: Object)
    ensures
        object_text(o).len() == 32,
{
    reveal_with_fuel(tens, 21);
    lemma_padded_len(o.ino as nat, 20);
    lemma_padded_len(0, 20);
    lemma_padded_len(0, 11);
    if o.dev < 0 {
        lemma_padded_len(-o.dev as nat, 10);
    } else {
        lemma_padded_len(o.dev as nat, 11);
    }
}

/// The directory of a run's hosts under the system's temporary directory.
/// Fixed width: guests' `HOME`, `PWD` and `TMPDIR` hold this path.
pub open spec fn run_dir(pid: u32) -> Seq<char> {
    "rewrite-run-"@ + words::padded(pid as nat, 10, 10)
}

pub fn run_dir_name(pid: u32) -> (r: String)
    ensures
        r@ == run_dir(pid),
{
    let mut out = "rewrite-run-".to_owned();
    push_padded(&mut out, pid as u64, 10, 10);
    out
}

/// The run's shared file. Not under the system's temporary directory, whose
/// length differs between users and machines; this path is in every guest's
/// environment.
pub open spec fn shared_file(pid: u32, number: u32) -> Seq<char> {
    "/tmp/rewrite-shm-"@ + words::padded(pid as nat, 10, 10) + "-"@ + words::padded(
        number as nat,
        10,
        6,
    )
}

pub fn shared_file_name(pid: u32, number: u32) -> (r: String)
    ensures
        r@ == shared_file(pid, number),
{
    let mut out = "/tmp/rewrite-shm-".to_owned();
    push_padded(&mut out, pid as u64, 10, 10);
    out.append("-");
    push_padded(&mut out, number as u64, 10, 6);
    out
}

/// The names in a guest's environment are as long in every run, up to a
/// million runs of one launcher.
pub proof fn run_names_are_equally_long(pid: u32, number: u32, other: u32, another: u32)
    requires
        number < 1_000_000,
        another < 1_000_000,
    ensures
        run_dir(pid).len() == run_dir(other).len(),
        shared_file(pid, number).len() == shared_file(other, another).len(),
{
    reveal_with_fuel(tens, 11);
    lemma_padded_len(pid as nat, 10);
    lemma_padded_len(other as nat, 10);
    lemma_padded_len(number as nat, 6);
    lemma_padded_len(another as nat, 6);
}

/// The bytes of a text
pub open spec fn encoded(s: Seq<char>) -> Seq<u8> {
    vstd::utf8::encode_utf8(s)
}

/// Names that the launcher sets itself and never hands on
pub open spec fn is_ours(name: Seq<u8>) -> bool {
    name == encoded(INSERT_VAR@) || name == encoded(PASSIVE_VAR@) || name == encoded(EXTERNAL_VAR@)
        || name == encoded(SHARED_VAR@) || name == encoded(PROC_VAR@)
}

/// The name is among those of the first `n` variables.
pub open spec fn is_set(e: fields::Entries, name: Seq<u8>, n: int) -> bool {
    exists|i: int| 0 <= i < n && encoded((#[trigger] e[i]).0) == name
}

/// What is inherited of the first `n` variables, where the run sets `set`
pub open spec fn inherited_of(
    vars: Seq<(Vec<u8>, Vec<u8>)>,
    set: fields::Entries,
    n: int,
) -> Seq<Seq<u8>>
    decreases n,
{
    if n <= 0 {
        Seq::empty()
    } else {
        let before = inherited_of(vars, set, n - 1);
        let (k, v) = vars[n - 1];
        if is_ours(k@) || is_set(set, k@, set.len() as int) {
            before
        } else {
            before.push(k@ + seq![0x3du8] + v@)
        }
    }
}

/// `KEY=VALUE` of the first `n`
pub open spec fn assignments(e: fields::Entries, n: int) -> Seq<Seq<u8>>
    decreases n,
{
    if n <= 0 {
        Seq::empty()
    } else {
        assignments(e, n - 1).push(encoded(e[n - 1].0) + seq![0x3du8] + encoded(e[n - 1].1))
    }
}

fn ours(name: &[u8]) -> (r: bool)
    ensures
        r == is_ours(name@),
{
    same(name, INSERT_VAR.as_bytes()) || same(name, PASSIVE_VAR.as_bytes())
        || same(name, EXTERNAL_VAR.as_bytes()) || same(name, SHARED_VAR.as_bytes())
        || same(name, PROC_VAR.as_bytes())
}

fn sets(vars: &Vec<(String, String)>, name: &[u8]) -> (r: bool)
    ensures
        r == is_set(fields::pairs(vars@), name@, vars@.len() as int),
{
    let ghost e = fields::pairs(vars@);
    let mut i: usize = 0;
    while i < vars.len()
        invariant
            i <= vars@.len(),
            e == fields::pairs(vars@),
            !is_set(e, name@, i as int),
        decreases vars@.len() - i,
    {
        assert(e[i as int].0 == vars@[i as int].0@);
        if same(vars[i].0.as_str().as_bytes(), name) {
            assert(encoded(e[i as int].0) == name@);
            return true;
        }
        i += 1;
    }
    false
}

/// Byte strings as what they hold
pub open spec fn held(v: Seq<Vec<u8>>) -> Seq<Seq<u8>> {
    v.map_values(|b: Vec<u8>| b@)
}

fn assignment(name: &[u8], value: &[u8]) -> (r: Vec<u8>)
    ensures
        r@ == name@ + seq![0x3du8] + value@,
{
    let mut out = vstd::slice::slice_to_vec(name);
    out.push(0x3d);
    let mut v = vstd::slice::slice_to_vec(value);
    out.append(&mut v);
    assert(out@ =~= name@ + seq![0x3du8] + value@);
    out
}

/// Append `KEY=VALUE` of every variable.
pub fn push_assignments(out: &mut Vec<Vec<u8>>, vars: &Vec<(String, String)>)
    ensures
        held(final(out)@) == held(old(out)@) + assignments(
            fields::pairs(vars@),
            vars@.len() as int,
        ),
{
    let ghost e = fields::pairs(vars@);
    let ghost was = held(out@);
    assert(was + assignments(e, 0) =~= was);
    let mut i: usize = 0;
    while i < vars.len()
        invariant
            i <= vars@.len(),
            e == fields::pairs(vars@),
            held(out@) == was + assignments(e, i as int),
        decreases vars@.len() - i,
    {
        let ghost now = held(out@);
        assert(e[i as int] == (vars@[i as int].0@, vars@[i as int].1@));
        let a = assignment(vars[i].0.as_str().as_bytes(), vars[i].1.as_str().as_bytes());
        out.push(a);
        assert(held(out@) =~= now.push(a@));
        assert(now.push(a@) =~= was + assignments(e, i as int).push(a@));
        i += 1;
    }
}

/// The environment of a guest's process
pub open spec fn whole_env(
    inherited: Option<Seq<(Vec<u8>, Vec<u8>)>>,
    dylib: Option<Seq<char>>,
    debug: fields::Entries,
    set: fields::Entries,
) -> Seq<Seq<u8>> {
    let from_us = match inherited {
        Some(vars) => inherited_of(vars, set, vars.len() as int),
        None => Seq::empty(),
    };
    let inserted = match dylib {
        Some(d) => seq![encoded(INSERT_VAR@) + seq![0x3du8] + encoded(d)],
        None => Seq::empty(),
    };
    let switches = match inherited {
        Some(_) => Seq::empty(),
        None => assignments(debug, debug.len() as int),
    };
    from_us + inserted + switches + assignments(set, set.len() as int)
}

/// The environment of a guest's process. What the run sets replaces what we
/// inherited: `getenv` returns the first match, so a second `HOME` further
/// down would never be seen. `debug` holds the supervisor's own debugging
/// switches, which a guest that does not inherit our environment would
/// otherwise never see.
pub fn environment(
    inherited: Option<&Vec<(Vec<u8>, Vec<u8>)>>,
    dylib: Option<&String>,
    debug: &Vec<(String, String)>,
    set: &Vec<(String, String)>,
) -> (r: Vec<Vec<u8>>)
    ensures
        held(r@) == whole_env(
            match inherited {
                Some(v) => Some(v@),
                None => None,
            },
            match dylib {
                Some(d) => Some(d@),
                None => None,
            },
            fields::pairs(debug@),
            fields::pairs(set@),
        ),
{
    let ghost e = fields::pairs(set@);
    let mut out: Vec<Vec<u8>> = Vec::new();
    assert(held(out@) =~= Seq::empty());
    match inherited {
        Some(vars) => {
            let mut i: usize = 0;
            while i < vars.len()
                invariant
                    i <= vars@.len(),
                    e == fields::pairs(set@),
                    held(out@) == inherited_of(vars@, e, i as int),
                decreases vars@.len() - i,
            {
                let k = vars[i].0.as_slice();
                if !ours(k) && !sets(set, k) {
                    let ghost was = held(out@);
                    let a = assignment(k, vars[i].1.as_slice());
                    out.push(a);
                    assert(held(out@) =~= was.push(a@));
                }
                i += 1;
            }
        },
        None => {},
    }
    let ghost first = held(out@);
    match dylib {
        Some(d) => {
            let a = assignment(INSERT_VAR.as_bytes(), d.as_str().as_bytes());
            out.push(a);
            assert(held(out@) =~= first + seq![a@]);
        },
        None => {
            assert(first =~= first + Seq::<Seq<u8>>::empty());
        },
    }
    let ghost second = held(out@);
    if inherited.is_none() {
        push_assignments(&mut out, debug);
    } else {
        assert(second =~= second + Seq::<Seq<u8>>::empty());
    }
    push_assignments(&mut out, set);
    out
}

/// What the launcher keeps to itself never comes to a guest from outside.
pub proof fn our_own_variables_are_not_inherited(
    vars: Seq<(Vec<u8>, Vec<u8>)>,
    set: fields::Entries,
    n: int,
    i: int,
)
    requires
        n <= vars.len(),
        0 <= i < inherited_of(vars, set, n).len(),
    ensures
        exists|k: int|
            0 <= k < n && inherited_of(vars, set, n)[i] == (#[trigger] vars[k]).0@ + seq![0x3du8]
                + vars[k].1@ && !is_ours(vars[k].0@) && !is_set(set, vars[k].0@, set.len() as int),
    decreases n,
{
    let before = inherited_of(vars, set, n - 1);
    if i < before.len() {
        our_own_variables_are_not_inherited(vars, set, n - 1, i);
        let k = choose|k: int|
            0 <= k < n - 1 && before[i] == (#[trigger] vars[k]).0@ + seq![0x3du8] + vars[k].1@
                && !is_ours(vars[k].0@) && !is_set(set, vars[k].0@, set.len() as int);
        assert(0 <= k < n);
    } else {
        assert(inherited_of(vars, set, n)[i] == vars[n - 1].0@ + seq![0x3du8] + vars[n - 1].1@);
    }
}

/// A path under `/tmp`, `/var` or `/etc`
pub open spec fn in_aliased(rest: Seq<char>) -> bool {
    under(rest, "/tmp"@) || under(rest, "/var"@) || under(rest, "/etc"@)
}

/// The path is the directory, or below it.
pub open spec fn under(path: Seq<char>, dir: Seq<char>) -> bool {
    match words::after(path, dir) {
        Some(r) => r.len() == 0 || r[0] == '/',
        None => false,
    }
}

/// A path as guests name it: `/tmp`, `/var` and `/etc` are links into
/// `/private`.
pub open spec fn public(path: Seq<char>) -> Seq<char> {
    match words::after(path, "/private"@) {
        Some(rest) => if in_aliased(rest) {
            rest
        } else {
            path
        },
        None => path,
    }
}

fn is_under(path: &Vec<char>, dir: &str) -> (r: bool)
    ensures
        r == under(path@, dir@),
{
    match after_prefix(path, dir) {
        Some(r) => r.len() == 0 || r[0] == '/',
        None => false,
    }
}

/// A resolved path as the supervisor compares it: as text, with `/private`
/// taken off `/tmp`, `/var` and `/etc`
pub fn public_path(path: &str) -> (r: String)
    ensures
        r@ == public(path@),
{
    match after_prefix(&chars_of(path), "/private") {
        Some(rest) => {
            if is_under(&rest, "/tmp") || is_under(&rest, "/var") || is_under(&rest, "/etc") {
                return string_of(&rest);
            }
        },
        None => {},
    }
    path.to_owned()
}

/// An entry of `allow:` that begins at the root is taken as it is; any
/// other is next to the run file.
pub fn is_absolute(entry: &str) -> (r: bool)
    ensures
        r == (entry@.len() > 0 && entry@[0] == '/'),
{
    let chars = chars_of(entry);
    chars.len() > 0 && chars[0] == '/'
}

/// A layer that is laid over others decides what it names, by its last word on
/// it, and leaves the rest as it was.
pub proof fn a_layer_decides_what_it_names(
    e: fields::Entries,
    layer: fields::Entries,
    name: Seq<char>,
    i: int,
    n: int,
)
    requires
        0 <= n <= layer.len(),
    ensures
        (forall|k: int| 0 <= k < n ==> (#[trigger] layer[k]).0 != name) ==> fields::find(
            laid_over(e, layer, n),
            name,
        ) == fields::find(e, name),
        0 <= i < n && layer[i].0 == name && (forall|k: int|
            i < k < n ==> (#[trigger] layer[k]).0 != name) ==> fields::find(
            laid_over(e, layer, n),
            name,
        ) == Some(layer[i].1),
    decreases n,
{
    if n > 0 {
        a_layer_decides_what_it_names(e, layer, name, i, n - 1);
        a_later_layer_wins(laid_over(e, layer, n - 1), layer[n - 1].0, layer[n - 1].1, name);
        if i == n - 1 {
            a_later_layer_wins(laid_over(e, layer, n - 1), name, layer[n - 1].1, name);
        }
    }
}

proof fn lemma_assigned(e: fields::Entries, n: int, i: int)
    requires
        0 <= i < n <= e.len(),
    ensures
        assignments(e, n).len() == n,
        assignments(e, n)[i] == encoded(e[i].0) + seq![0x3du8] + encoded(e[i].1),
    decreases n,
{
    reveal_with_fuel(assignments, 2);
    if n > 1 {
        lemma_assigned(e, n - 1, if i < n - 1 {
            i
        } else {
            0
        });
    }
}

proof fn lemma_inherited(vars: Seq<(Vec<u8>, Vec<u8>)>, set: fields::Entries, n: int, i: int)
    requires
        0 <= i < n <= vars.len(),
        !is_ours(vars[i].0@),
        !is_set(set, vars[i].0@, set.len() as int),
    ensures
        inherited_of(vars, set, n).contains(vars[i].0@ + seq![0x3du8] + vars[i].1@),
    decreases n,
{
    let one = vars[i].0@ + seq![0x3du8] + vars[i].1@;
    let all = inherited_of(vars, set, n);
    if i < n - 1 {
        lemma_inherited(vars, set, n - 1, i);
        let before = inherited_of(vars, set, n - 1);
        let k = choose|k: int| 0 <= k < before.len() && before[k] == one;
        assert(all[k] == one);
    } else {
        assert(all[all.len() - 1] == one);
    }
}

/// An environment holds all that it should: every variable that is set, the
/// library to insert, and of an inherited one every variable that is neither
/// set nor the launcher's own.
#[verifier::rlimit(40)]
pub proof fn an_environment_is_whole(
    inherited: Option<Seq<(Vec<u8>, Vec<u8>)>>,
    dylib: Option<Seq<char>>,
    debug: fields::Entries,
    set: fields::Entries,
    i: int,
)
    ensures
        ({
            let env = whole_env(inherited, dylib, debug, set);
            let eq = seq![0x3du8];
            &&& 0 <= i < set.len() ==> env.contains(encoded(set[i].0) + eq + encoded(set[i].1))
            &&& dylib matches Some(d) ==> env.contains(
                encoded("DYLD_INSERT_LIBRARIES"@) + eq + encoded(d),
            )
            &&& inherited is None && 0 <= i < debug.len() ==> env.contains(
                encoded(debug[i].0) + eq + encoded(debug[i].1),
            )
            &&& inherited matches Some(vars) ==> (0 <= i < vars.len() && vars[i].0@ != encoded(
                "DYLD_INSERT_LIBRARIES"@,
            ) && vars[i].0@ != encoded(PASSIVE_VAR@) && vars[i].0@ != encoded(EXTERNAL_VAR@)
                && vars[i].0@ != encoded(SHARED_VAR@) && vars[i].0@ != encoded(PROC_VAR@) && (
            forall|k: int| 0 <= k < set.len() ==> encoded((#[trigger] set[k]).0) != vars[i].0@)
                ==> env.contains(vars[i].0@ + eq + vars[i].1@))
        }),
{
    let env = whole_env(inherited, dylib, debug, set);
    let from_us = match inherited {
        Some(vars) => inherited_of(vars, set, vars.len() as int),
        None => Seq::empty(),
    };
    let inserted = match dylib {
        Some(d) => seq![encoded(INSERT_VAR@) + seq![0x3du8] + encoded(d)],
        None => Seq::empty(),
    };
    let switches = match inherited {
        Some(_) => Seq::empty(),
        None => assignments(debug, debug.len() as int),
    };
    let last = assignments(set, set.len() as int);
    let a = from_us.len() as int;
    let b = a + inserted.len();
    let c = b + switches.len();
    if 0 <= i < set.len() {
        lemma_assigned(set, set.len() as int, i);
        assert(env[c + i] == last[i]);
    }
    if let Some(d) = dylib {
        assert(env[a] == inserted[0]);
    }
    if inherited is None && 0 <= i < debug.len() {
        lemma_assigned(debug, debug.len() as int, i);
        assert(env[b + i] == switches[i]);
    }
    if let Some(vars) = inherited {
        if 0 <= i < vars.len() && !is_ours(vars[i].0@) && !is_set(
            set,
            vars[i].0@,
            set.len() as int,
        ) {
            lemma_inherited(vars, set, vars.len() as int, i);
            let one = vars[i].0@ + seq![0x3du8] + vars[i].1@;
            let k = choose|k: int| 0 <= k < from_us.len() && from_us[k] == one;
            assert(env[k] == one);
        }
    }
}

/// What a guest is told to join a run by: the seed, what is outside the run, and
/// its place in the run where it has one.
pub proof fn a_guest_is_told_how_to_join(
    seed: u64,
    passive: bool,
    external: Seq<char>,
    place: Option<(Seq<char>, u32)>,
)
    ensures
        ({
            let e = joining(seed, passive, external, place);
            &&& e.contains((SEED_VAR@, text::decimal(seed as nat)))
            &&& e.contains((EXTERNAL_VAR@, external))
            &&& passive ==> e.contains((PASSIVE_VAR@, "1"@))
            &&& place matches Some((path, index)) ==> e.contains((SHARED_VAR@, path))
                && e.contains((PROC_VAR@, text::decimal(index as nat)))
            &&& e.len() == 2 + (if passive {
                1int
            } else {
                0
            }) + (if place is Some {
                2int
            } else {
                0
            })
        }),
{
    let e = joining(seed, passive, external, place);
    let k: int = if passive {
        1
    } else {
        0
    };
    assert(e[0] == (SEED_VAR@, text::decimal(seed as nat)));
    assert(e[1 + k] == (EXTERNAL_VAR@, external));
    if passive {
        assert(e[1] == (PASSIVE_VAR@, "1"@));
    }
    if let Some((path, index)) = place {
        assert(e[2 + k] == (SHARED_VAR@, path));
        assert(e[3 + k] == (PROC_VAR@, text::decimal(index as nat)));
    }
}

} // verus!
