use map_tester::strmap::StrMap;
use map_tester::text::{
    ascii_upper_of, chars_of, contains, decimal_chars, find_first, is_whitespace, parse_i32, parse_u32,
    parse_u8, parse_u8_binary, parse_unsigned, replace, split_at_byte, split_char, split_words, starts_with,
    str_eq, take_before, trim, utf8_width_of,
};

fn cs(s: &str) -> Vec<char> {
    s.chars().collect()
}

fn string_of(v: &[char]) -> String {
    v.iter().collect()
}

fn words_of(s: &str) -> Vec<String> {
    split_words(&cs(s)).iter().map(|w| w.iter().collect()).collect()
}

#[test]
fn chars_and_strings_round_trip() {
    let v = chars_of("héllo");
    assert_eq!(v, vec!['h', 'é', 'l', 'l', 'o']);
    assert_eq!(string_of(&v), "héllo");
}

#[test]
fn whitespace_is_unicode_whitespace() {
    assert!(is_whitespace(' '));
    assert!(is_whitespace('\t'));
    assert!(is_whitespace('\u{3000}'));
    assert!(!is_whitespace('a'));
    assert!(!is_whitespace('_'));
}

#[test]
fn ascii_capitals() {
    assert_eq!(ascii_upper_of('q'), 'Q');
    assert_eq!(ascii_upper_of('Q'), 'Q');
    assert_eq!(ascii_upper_of('é'), 'é');
}

#[test]
fn searching_text() {
    assert!(contains("arch/walls/stone", "walls"));
    assert!(!contains("arch/roads", "walls"));
    assert!(contains("anything", ""));
    assert!(starts_with("mouse 1 2", "mouse"));
    assert!(!starts_with("mou", "mouse"));
    assert!(str_eq("main", "main"));
    assert!(!str_eq("main", "mainx"));
    assert_eq!(find_first(&cs("a.b.c"), &cs(".")), 1);
    assert_eq!(find_first(&cs("abc"), &cs("x")), 3);
    assert_eq!(string_of(&take_before(&cs("stone_wall.png"), &cs("."))), "stone_wall");
}

#[test]
fn trimming_and_splitting() {
    assert_eq!(trim("  grass  \n"), "grass");
    assert_eq!(trim(""), "");
    assert_eq!(words_of("  skin   paladin "), vec!["skin".to_string(), "paladin".to_string()]);
    assert!(words_of("   ").is_empty());
    let parts: Vec<String> = split_char(&cs("a/b//c"), '/').iter().map(|w| w.iter().collect()).collect();
    assert_eq!(parts, vec!["a", "b", "", "c"]);
}

#[test]
fn replacing_every_occurrence() {
    assert_eq!(replace("a-b-c", "-", "+"), "a+b+c");
    assert_eq!(replace("aaa", "aa", "b"), "ba");
    assert_eq!(replace("none", "x", "y"), "none");
}

#[test]
fn parsing_numbers_as_std_does() {
    assert_eq!(parse_u32(&cs("4294967295")), Some(4294967295));
    assert_eq!(parse_u32(&cs("4294967296")), None);
    assert_eq!(parse_u32(&cs("+7")), Some(7));
    assert_eq!(parse_u32(&cs("")), None);
    assert_eq!(parse_u32(&cs("1a")), None);
    assert_eq!(parse_u8(&cs("255")), Some(255));
    assert_eq!(parse_u8(&cs("256")), None);
    assert_eq!(parse_u8_binary(&cs("11000")), Some(24));
    assert_eq!(parse_u8_binary(&cs("2")), None);
    assert_eq!(parse_unsigned(&cs("777"), 8, 0xffff_ffff), Some(511));
    assert_eq!(parse_i32(&cs("-2147483648")), Some(i32::MIN));
    assert_eq!(parse_i32(&cs("2147483647")), Some(i32::MAX));
    assert_eq!(parse_i32(&cs("2147483648")), None);
    assert_eq!(parse_i32(&cs("-")), None);
}

#[test]
fn decimal_text_reads_back() {
    for n in [0u64, 7, 10, 65535, 4294967295] {
        let d = decimal_chars(n);
        assert_eq!(string_of(&d), n.to_string());
        if n <= 0xffff_ffff {
            assert_eq!(parse_u32(&d), Some(n as u32));
        }
    }
}

#[test]
fn utf8_widths_and_byte_splits() {
    assert_eq!(utf8_width_of('a'), 1);
    assert_eq!(utf8_width_of('é'), 2);
    assert_eq!(utf8_width_of('€'), 3);
    assert_eq!(utf8_width_of('😀'), 4);
    let (a, b) = split_at_byte(&cs("héllo"), 3).unwrap();
    assert_eq!(string_of(&a), "hé");
    assert_eq!(string_of(&b), "llo");
    assert!(split_at_byte(&cs("héllo"), 2).is_none());
    assert!(split_at_byte(&cs("ab"), 3).is_none());
}

#[test]
fn strmap_reads_back_what_was_written() {
    let mut m: StrMap<i16> = StrMap::new();
    m.insert("grass".to_string(), 1);
    m.insert("wall".to_string(), 2);
    m.insert("grass".to_string(), 5);
    assert_eq!(m.len(), 2);
    assert_eq!(m.get("grass"), Some(&5));
    assert_eq!(m.get("wall"), Some(&2));
    assert_eq!(m.get("water"), None);
    assert_eq!(m.position("wall"), Some(1));
    assert_eq!(m.entry(0).0, "grass");
    let old = m.swap_value(1, 9);
    assert_eq!(old, 2);
    assert_eq!(m.get("wall"), Some(&9));
    let d = m.duplicate();
    assert_eq!(d.len(), 2);
    assert_eq!(d.get("grass"), Some(&5));
}
