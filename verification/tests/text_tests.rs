use argos_runner::text::{
    copy_range, find_pattern, is_white_space_exec, occurs_at_exec, parse_u64_exec,
    second_field_exec, starts_with_exec, strip_white_space_from,
};

fn chars(s: &str) -> Vec<char> {
    s.chars().collect()
}

#[test]
fn white_space_agrees_with_std_on_every_char() {
    for u in 0u32..=0x10FFFF {
        if let Some(c) = char::from_u32(u) {
            assert_eq!(is_white_space_exec(c), c.is_whitespace(), "char {:#x}", u);
        }
    }
}

#[test]
fn find_agrees_with_std() {
    let cases = [
        ("xx BUZZ: a", "BUZZ:"),
        ("BUZZ:", "BUZZ:"),
        ("BUZ", "BUZZ:"),
        ("", "a"),
        ("abc", ""),
        ("aaaa", "aa"),
        ("a,b,c", ","),
        ("no comma", ","),
    ];
    for (s, p) in cases {
        let expected = s.find(p).map(|b| s[..b].chars().count());
        assert_eq!(find_pattern(&chars(s), &chars(p)), expected, "{:?} in {:?}", p, s);
    }
}

#[test]
fn occurs_at_checks_bounds() {
    assert!(occurs_at_exec(&chars("abcd"), &chars("cd"), 2));
    assert!(!occurs_at_exec(&chars("abcd"), &chars("cd"), 3));
    assert!(!occurs_at_exec(&chars("abcd"), &chars("cd"), 9));
}

#[test]
fn starts_with_agrees_with_std() {
    for (s, p) in [("MAP,1,2", "MAP,"), ("MAP", "MAP,"), ("1,MAP,", "MAP,"), ("", "")] {
        assert_eq!(starts_with_exec(&chars(s), &chars(p)), s.starts_with(p));
    }
}

#[test]
fn strip_white_space_removes_all_kinds() {
    let s = chars("BUZZ: a b\tc\u{3000}d\n");
    let out: String = strip_white_space_from(&s, 5).into_iter().collect();
    assert_eq!(out, "abcd");
}

#[test]
fn copy_range_takes_the_slice() {
    let s = chars("hello");
    assert_eq!(copy_range(&s, 1, 4), chars("ell"));
    assert!(copy_range(&s, 2, 2).is_empty());
}

#[test]
fn second_field_agrees_with_split() {
    for s in ["a,b,c", "a,b", "a,", ",x", "abc", "", ",,", "r1,30,4,5"] {
        let expected = s.split(',').nth(1).map(chars);
        assert_eq!(second_field_exec(&chars(s)), expected, "{:?}", s);
    }
}

#[test]
fn parse_agrees_with_std() {
    let cases = [
        "0",
        "42",
        "+42",
        "-1",
        "",
        "+",
        "-",
        "++1",
        "007",
        "1a",
        " 1",
        "18446744073709551615",
        "18446744073709551616",
        "99999999999999999999999",
        "+18446744073709551615",
        "\u{0661}",
    ];
    for s in cases {
        assert_eq!(parse_u64_exec(&chars(s)), s.parse::<u64>().ok(), "{:?}", s);
    }
}
