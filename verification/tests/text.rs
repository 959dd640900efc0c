use derp::bytes;
use derp::fields;
use derp::hash::{fnv, fold, BASIS};
use derp::ring::Ring;
use derp::sorting::{order_of, sort};
use derp::text::{
    chars_of, find_last, lines, parse_unsigned, part, push_decimal, push_hex, same_text, split,
    split_once, starts_with, string_of, trim,
};
use derp::units::{ms, parse_duration_ns, parse_size, parse_span};
use derp::words::{
    after_prefix, before_suffix, comes_before, joined, parse_signed, push_padded, push_signed,
    split_once_last, split_once_text, words,
};

fn chars(s: &str) -> Vec<char> {
    s.chars().collect()
}

fn strings(parts: &[Vec<char>]) -> Vec<String> {
    parts.iter().map(string_of).collect()
}

#[test]
fn a_text_is_its_characters() {
    let text = "größe ✓";
    assert_eq!(chars_of(text), chars(text));
    assert_eq!(string_of(&chars(text)), text);
    assert_eq!(part(&chars("abcdef"), 2, 4), ['c', 'd']);
    assert!(same_text("ab", "ab"));
    assert!(!same_text("ab", "abc"));
    assert!(starts_with(&chars("abc"), "ab"));
    assert!(!starts_with(&chars("a"), "ab"));
}

#[test]
fn texts_are_cut_at_separators() {
    assert_eq!(strings(&split(&chars("a,,b"), ',')), ["a", "", "b"]);
    assert_eq!(strings(&split(&chars(""), ',')), [""]);
    assert_eq!(strings(&lines("a\r\nb\n\nc\n")), ["a", "b", "", "c"]);
    assert!(lines("").is_empty());
    let (k, v) = split_once(&chars("k=v=w"), '=').unwrap();
    assert_eq!((string_of(&k), string_of(&v)), ("k".into(), "v=w".into()));
    assert!(split_once(&chars("kv"), '=').is_none());
    assert_eq!(string_of(&trim(&chars(" \t a b\n"))), "a b");
    assert_eq!(find_last(&chars("a/b/c"), '/'), Some(3));
    assert_eq!(find_last(&chars("abc"), '/'), None);
}

#[test]
fn numbers_in_texts() {
    let mut s = String::new();
    push_decimal(&mut s, u64::MAX);
    assert_eq!(s, u64::MAX.to_string());
    assert_eq!(parse_unsigned(&chars(&s), 10, u64::MAX), Some(u64::MAX));
    assert_eq!(parse_unsigned(&chars("18446744073709551616"), 10, u64::MAX), None);
    let mut h = String::new();
    push_hex(&mut h, 0xDEAD_BEEF);
    assert_eq!(h, "0xdeadbeef");
    assert_eq!(parse_unsigned(&chars("DeadBeef"), 16, u64::MAX), Some(0xDEAD_BEEF));
    assert_eq!(parse_unsigned(&chars("256"), 10, 255), None);
    assert_eq!(parse_unsigned(&chars("+7"), 10, 255), Some(7));
    assert_eq!(parse_unsigned(&chars("+"), 10, 255), None);
    assert_eq!(parse_unsigned(&chars(""), 10, 255), None);
    assert_eq!(parse_unsigned(&chars("1a"), 10, 255), None);
}

#[test]
fn padded_and_signed_numbers() {
    let mut s = String::new();
    push_padded(&mut s, 42, 10, 5);
    push_padded(&mut s, 0xABC, 16, 2);
    assert_eq!(s, "00042abc");
    assert_eq!(parse_unsigned(&chars("00042"), 10, u64::MAX), Some(42));
    let mut n = String::new();
    push_signed(&mut n, i64::MIN);
    assert_eq!(n, i64::MIN.to_string());
    assert_eq!(parse_signed(&chars(&n)), Some(i64::MIN));
    assert_eq!(parse_signed(&chars("-0012")), Some(-12));
    assert_eq!(parse_signed(&chars("9223372036854775808")), None);
    assert_eq!(parse_signed(&chars("-")), None);
}

#[test]
fn words_and_affixes() {
    assert_eq!(words(&chars("  a bc\td ")), ["a", "bc", "d"]);
    assert!(words(&chars(" \n")).is_empty());
    assert_eq!(after_prefix(&chars("site=0x1f"), "site=0x"), Some(chars("1f")));
    assert_eq!(after_prefix(&chars("sit"), "site"), None);
    assert_eq!(before_suffix(&chars("12ms"), "ms"), Some(chars("12")));
    assert_eq!(before_suffix(&chars("s"), "ms"), None);
    assert_eq!(
        split_once_text(&chars("a..b..c"), ".."),
        Some((chars("a"), chars("b..c")))
    );
    assert_eq!(
        split_once_last(&chars("a..b..c"), ".."),
        Some((chars("a..b"), chars("c")))
    );
    assert_eq!(split_once_text(&chars("abc"), ".."), None);
    assert_eq!(joined(&vec!["a".into(), "b".into()], ":"), "a:b");
    assert_eq!(joined(&Vec::new(), ":"), "");
    assert!(comes_before("ab", "abc"));
    assert!(comes_before("Z", "a"));
    assert!(!comes_before("b", "b"));
}

#[test]
fn spans_of_time_and_sizes() {
    assert_eq!(parse_duration_ns("5ms"), Some(5_000_000));
    assert_eq!(parse_duration_ns("250us"), Some(250_000));
    assert_eq!(parse_duration_ns("1s"), Some(1_000_000_000));
    assert_eq!(parse_duration_ns("7ns"), Some(7));
    assert_eq!(parse_duration_ns("7"), Some(7));
    assert_eq!(parse_duration_ns("20000000000s"), None);
    assert_eq!(parse_duration_ns("ms"), None);
    assert_eq!(parse_duration_ns("-1s"), None);
    assert_eq!(parse_size("32G"), Some(32 << 30));
    assert_eq!(parse_size("512M"), Some(512 << 20));
    assert_eq!(parse_size("4T"), Some(4 << 40));
    assert_eq!(parse_size("4096"), Some(4096));
    assert_eq!(parse_size("1X"), None);
    assert_eq!(parse_span("1s..2s"), Some((1_000_000_000, 2_000_000_000)));
    assert_eq!(parse_span("3ms"), Some((3_000_000, 3_000_000)));
    assert_eq!(parse_span("2s..1s"), None);
    assert_eq!(ms(1_234_567_890), "1234.567 ms");
    assert_eq!(ms(1_000), "0.001 ms");
}

#[test]
fn little_endian_numbers() {
    let mut b = vec![0u8; 16];
    bytes::put_u64(&mut b, 0, 0x0102_0304_0506_0708);
    bytes::put_u32(&mut b, 8, 0xA1B2_C3D4);
    assert_eq!(b[..12], [8, 7, 6, 5, 4, 3, 2, 1, 0xD4, 0xC3, 0xB2, 0xA1]);
    assert_eq!(bytes::u64_at(&b, 0), Some(0x0102_0304_0506_0708));
    assert_eq!(bytes::u32_at(&b, 8), Some(0xA1B2_C3D4));
    assert_eq!(bytes::u16_at(&b, 8), Some(0xC3D4));
    assert_eq!(bytes::u32_at(&b, 13), None);
    assert_eq!(bytes::u64_at(&b, usize::MAX), None);
    assert_eq!(bytes::cut(&b, 6, 9), [2, 1, 0xD4]);
    bytes::lay(&mut b, 1, &[9, 9]);
    assert_eq!(b[..4], [8, 9, 9, 5]);
    bytes::push_zeros(&mut b, 2);
    assert_eq!(b.len(), 18);
    assert_eq!(bytes::bytes32(1), [1, 0, 0, 0]);
    assert_eq!(bytes::bytes64(256), [0, 1, 0, 0, 0, 0, 0, 0]);
    assert!(bytes::same(&[1, 2], &[1, 2]));
    assert!(!bytes::same(&[1, 2], &[1]));
    assert!(bytes::starts_with(b"/dev/null", b"/dev/"));
    assert!(!bytes::starts_with(b"/d", b"/dev/"));
}

#[test]
fn equal_keys_keep_their_order() {
    assert_eq!(
        sort(vec![(3, 0), (1, 1), (3, 2), (1, 3)]),
        [(1, 1), (1, 3), (3, 0), (3, 2)]
    );
    assert_eq!(order_of(&vec![30, 10, 20, 10]), [1, 3, 2, 0]);
}

#[test]
fn hashes_of_known_texts() {
    // FNV-1a, 64 bits
    assert_eq!(fold(BASIS, b""), 0xCBF2_9CE4_8422_2325);
    assert_eq!(fold(BASIS, b"a"), 0xAF63_DC4C_8601_EC8C);
    assert_eq!(fold(BASIS, b"foobar"), 0x8594_4171_F739_67E8);
    assert_eq!(fnv(BASIS, 0x61), fold(BASIS, &[0x61, 0, 0, 0, 0, 0, 0, 0]));
}

#[test]
fn named_values() {
    let mut v = Vec::new();
    fields::set(&mut v, "b".into(), "1".into());
    fields::set(&mut v, "a".into(), "2".into());
    fields::set(&mut v, "b".into(), "3".into());
    assert_eq!(v.len(), 2);
    assert_eq!(fields::get(&v, "b").unwrap(), "3");
    assert_eq!(fields::get(&v, "a").unwrap(), "2");
    assert!(fields::get(&v, "c").is_none());
}

#[test]
fn a_ring_is_read_in_the_order_written() {
    let mut r = Ring::new();
    r.push(&[1, 2, 3]);
    r.push(&[4, 5]);
    assert_eq!(r.len(), 5);
    assert_eq!(r.copy(1, 3), [2, 3, 4]);
    let mut out = [0u8; 4];
    r.peek(2, &mut out, 3);
    assert_eq!(out, [3, 4, 5, 0]);
    r.skip(4);
    assert_eq!((r.len(), r.copy(0, 1)), (1, vec![5]));
    // Round the end of the buffer
    let block = vec![7u8; 65_530];
    r.push(&block);
    r.skip(65_530);
    r.push(&[1, 2, 3, 4, 5, 6, 7, 8, 9]);
    assert_eq!(r.copy(0, 10), [7, 1, 2, 3, 4, 5, 6, 7, 8, 9]);
    r.clear();
    assert_eq!(r.len(), 0);
}
