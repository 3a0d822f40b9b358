use rust_monitor::text::{
    chars_of, contains, find_from, lines, parse_digits, parse_signed, parse_unsigned, replace, same, same_chars,
    split, split_once, starts_with, string_of, trim, trim_end_char, white_space, words,
};

fn chars(s: &str) -> Vec<char> {
    s.chars().collect()
}

fn texts(list: Vec<&[char]>) -> Vec<String> {
    list.into_iter().map(|p| p.iter().collect()).collect()
}

const SAMPLES: [&str; 12] = [
    "",
    " ",
    "a",
    " a b\tc ",
    "\u{a0}x\u{3000}",
    "a\nb\r\nc",
    "\n",
    "a\r",
    "\r\n\r\n",
    "::a:b:",
    "key=value=more",
    "é=ü\u{2028}ß",
];

#[test]
fn white_space_agrees_with_std() {
    for code in 0..=0x10ffffu32 {
        if let Some(c) = char::from_u32(code) {
            assert_eq!(white_space(c), c.is_whitespace(), "{code:x}");
        }
    }
}

#[test]
fn cutting_agrees_with_std() {
    for s in SAMPLES {
        let text = chars(s);
        assert_eq!(string_of(trim(&text)), s.trim());
        assert_eq!(texts(words(&text)), s.split_whitespace().collect::<Vec<_>>());
        assert_eq!(texts(lines(&text)), s.lines().collect::<Vec<_>>());
        for c in [':', '=', '\n', 'é'] {
            assert_eq!(texts(split(&text, c)), s.split(c).collect::<Vec<_>>());
            let once = split_once(&text, c).map(|(a, b)| (string_of(a), string_of(b)));
            let expected = s.split_once(c).map(|(a, b)| (a.to_string(), b.to_string()));
            assert_eq!(once, expected);
            assert_eq!(string_of(trim_end_char(&text, c)), s.trim_end_matches(c));
            assert_eq!(string_of(&replace(&text, c, '#')), s.replace(c, "#"));
        }
    }
}

#[test]
fn numbers_agree_with_std() {
    let samples = [
        "", "+", "-", "0", "-0", "+0", "00012", "18446744073709551615", "18446744073709551616",
        "9223372036854775807", "9223372036854775808", "-9223372036854775808",
        "-9223372036854775809", "1x", "x1", " 1", "1 ", "--1", "+-1", "٣", "65535", "65536",
        "99999999999999999999999999999999",
    ];
    for s in samples {
        let text = chars(s);
        assert_eq!(parse_unsigned(&text, u64::MAX), s.parse::<u64>().ok(), "{s}");
        assert_eq!(
            parse_unsigned(&text, u16::MAX as u64),
            s.parse::<u16>().ok().map(|n| n as u64),
            "{s}"
        );
        assert_eq!(parse_signed(&text), s.parse::<i64>().ok(), "{s}");
        let plain = !s.starts_with('+');
        assert_eq!(parse_digits(&text, u64::MAX), s.parse::<u64>().ok().filter(|_| plain), "{s}");
    }
}

#[test]
fn searching_agrees_with_std() {
    for s in SAMPLES {
        let text = chars(s);
        assert_eq!(chars_of(s), text);
        for p in ["", "a", "key", "=v", "=", "ü", "longer than any of them"] {
            assert_eq!(contains(&text, p), s.contains(p));
            assert_eq!(starts_with(&text, p), s.starts_with(p));
            assert_eq!(same(s, p), s == p);
            assert_eq!(same_chars(&text, &chars(p)), s == p);
        }
    }
    assert_eq!(find_from(&chars("abab"), &chars("ab"), 0), Some(0));
    assert_eq!(find_from(&chars("abab"), &chars("ab"), 1), Some(2));
    assert_eq!(find_from(&chars("abab"), &chars("ab"), 3), None);
    assert_eq!(find_from(&chars("abab"), &chars(""), 4), Some(4));
}
