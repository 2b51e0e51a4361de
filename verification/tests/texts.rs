use sms_notifier::lines::{
    indent, join_lines, replace, split, split_lines, split_words,
};
use sms_notifier::number::{push_decimal, push_two_digits, read_signed, read_unsigned};
use sms_notifier::text::{chars_of, contains_text, find_text, string_of, to_ascii_lower, trim};

fn chars(s: &str) -> Vec<char> {
    s.chars().collect()
}

fn strings(v: &[&[char]]) -> Vec<String> {
    v.iter().map(|p| p.iter().collect()).collect()
}

#[test]
fn strings_and_characters_round_trip() {
    let s = "a【中】\u{1f511}\u{301}";
    assert_eq!(string_of(&chars_of(s)), s);
}

#[test]
fn trimming_follows_unicode() {
    assert_eq!(trim(&chars(" \u{3000}\u{85}a b\u{a0}\r\n")), chars("a b").as_slice());
    assert_eq!(trim(&chars("\u{200b}x")), chars("\u{200b}x").as_slice());
    for n in 0..0x11_0000u32 {
        if let Some(c) = char::from_u32(n) {
            assert_eq!(sms_notifier::text::whitespace(c), c.is_whitespace(), "{n:x}");
            assert_eq!(sms_notifier::text::control(c), c.is_control(), "{n:x}");
        }
    }
}

#[test]
fn searching_finds_the_first_place() {
    let s = chars("abcabc");
    assert_eq!(find_text(&s, "bc", 0), Some(1));
    assert_eq!(find_text(&s, "bc", 2), Some(4));
    assert_eq!(find_text(&s, "bc", 5), None);
    assert_eq!(find_text(&s, "", 6), Some(6));
    assert_eq!(find_text(&s, "", 7), None);
    assert!(contains_text(&s, "cab"));
    assert!(!contains_text(&s, "acb"));
    assert_eq!(to_ascii_lower(&chars("ÄBc")), chars("Äbc"));
}

#[test]
fn splitting_and_joining() {
    let s = chars("a,,b,");
    let p = split(&s, ',');
    assert_eq!(strings(&p), vec!["a", "", "b", ""]);
    let t = chars("x\ny\n");
    let q = split(&t, '\n');
    assert_eq!(join_lines(&q), t);
    assert_eq!(strings(&split(&[], ',')), vec![""]);
}

#[test]
fn lines_end_as_the_standard_library_has_it() {
    for s in ["", "a", "a\n", "a\r\nb\r", "\n\n", "a\r\r\n", "\r\n", "a\rb\n\nc"] {
        let c = chars(s);
        let expected: Vec<String> = s.lines().map(str::to_owned).collect();
        assert_eq!(strings(&split_lines(&c)), expected, "{s:?}");
        let words: Vec<String> = s.split_whitespace().map(str::to_owned).collect();
        assert_eq!(strings(&split_words(&c)), words, "{s:?}");
    }
}

#[test]
fn replacing_characters() {
    assert_eq!(replace(&chars("a\nb\n"), '\n', "<br>"), chars("a<br>b<br>"));
}

#[test]
fn indentation_is_counted_in_bytes() {
    assert_eq!(indent(&chars("  a")), 2);
    assert_eq!(indent(&chars("\t\u{3000}a")), 4);
    assert_eq!(indent(&chars("a")), 0);
    assert_eq!(indent(&chars("   ")), 3);
}

#[test]
fn numbers_are_read_as_the_standard_library_reads_them() {
    for s in ["", "+", "0", "+7", "007", "4294967295", "4294967296", "-1", "1a", " 1"] {
        let got = read_unsigned(&chars(s), 10, u32::MAX as u64).map(|n| n as u32);
        assert_eq!(got, s.parse::<u32>().ok(), "{s:?}");
    }
    for s in ["ff", "FF", "+1", "", "x", "ffffffff", "100000000"] {
        let got = read_unsigned(&chars(s), 16, u32::MAX as u64).map(|n| n as u32);
        assert_eq!(got, u32::from_str_radix(s, 16).ok(), "{s:?}");
    }
    for s in ["-128", "-129", "127", "128", "-0", "+5", "--1", "-"] {
        let got = read_signed(&chars(s), 127).map(|n| n as i8);
        assert_eq!(got, s.parse::<i8>().ok(), "{s:?}");
    }
    assert_eq!(read_unsigned(&chars("18446744073709551615"), 10, u64::MAX), Some(u64::MAX));
    assert_eq!(read_unsigned(&chars("18446744073709551616"), 10, u64::MAX), None);
}

#[test]
fn decimals_are_written_and_read_back() {
    for n in [0u64, 7, 10, 99, 100, 1_000_000_007, u64::MAX] {
        let mut d = Vec::new();
        push_decimal(&mut d, n);
        assert_eq!(d, chars(&format!("{n}")));
        assert_eq!(read_unsigned(&d, 10, u64::MAX), Some(n));
        let mut two = Vec::new();
        push_two_digits(&mut two, n);
        assert_eq!(two, chars(&format!("{n:02}")));
    }
}
