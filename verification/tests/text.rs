use memcached_rust::text::{
    chars_of, is_whitespace, parse_number, push_decimal, spells, token_bounds,
};

fn chars(s: &str) -> Vec<char> {
    s.chars().collect()
}

#[test]
fn white_space_is_what_std_says() {
    for code in 0..=0x11_0000u32 {
        if let Some(c) = char::from_u32(code) {
            assert_eq!(is_whitespace(c), c.is_whitespace(), "{:x}", code);
        }
    }
}

#[test]
fn chars_are_collected_in_order() {
    assert_eq!(chars_of("a\u{e9}\u{20ac}z"), vec!['a', '\u{e9}', '\u{20ac}', 'z']);
    assert_eq!(chars_of(""), Vec::<char>::new());
}

#[test]
fn tokens_are_what_std_splits_at_white_space() {
    for s in [
        "",
        " ",
        "a",
        "a b",
        "a  b",
        " a",
        "a ",
        "set k 0 0 v",
        "  ",
        "a\tb c",
        "\r\n",
        "\tget k\r\n",
        "\u{a0}x\u{2003}",
        "x\u{85}y",
        " \u{1680} ",
        "caf\u{e9}\u{3000}\u{20ac}uro",
    ] {
        let cs = chars(s);
        let bounds = token_bounds(&cs);
        let tokens: Vec<String> = bounds.iter().map(|(a, b)| cs[*a..*b].iter().collect()).collect();
        let expected: Vec<String> = s.split_whitespace().map(|t| t.to_string()).collect();
        assert_eq!(tokens, expected, "{:?}", s);
    }
    let cs = chars("  ab \t c ");
    assert_eq!(token_bounds(&cs), vec![(2, 4), (7, 8)]);
    assert_eq!(token_bounds(&chars("")), vec![]);
    assert_eq!(token_bounds(&chars("x")), vec![(0, 1)]);
}

#[test]
fn numbers_are_read_as_std_reads_them() {
    for s in [
        "0", "7", "42", "007", "+5", "+", "", "-1", "1a", "a1", " 1", "1 ", "++1", "+-1",
        "255", "256", "340282366920938463463374607431768211455",
        "340282366920938463463374607431768211456", "99999999999999999999999999999999999999999",
        "\u{661}",
    ] {
        let cs = chars(s);
        assert_eq!(parse_number(&cs, 0, cs.len(), u128::MAX), s.parse::<u128>().ok(), "{:?}", s);
        assert_eq!(
            parse_number(&cs, 0, cs.len(), 255),
            s.parse::<u8>().ok().map(|v| v as u128),
            "{:?}",
            s
        );
    }
    let cs = chars("ab123cd");
    assert_eq!(parse_number(&cs, 2, 5, 1000), Some(123));
    assert_eq!(parse_number(&cs, 2, 5, 122), None);
    assert_eq!(parse_number(&cs, 2, 5, 123), Some(123));
    assert_eq!(parse_number(&cs, 2, 6, 1000), None);
    assert_eq!(parse_number(&cs, 0, 0, 0), None);
    let zero = chars("0");
    assert_eq!(parse_number(&zero, 0, 1, 0), Some(0));
}

#[test]
fn words_are_compared_whole() {
    let cs = chars("get gets ge");
    assert!(spells(&cs, 0, 3, "get"));
    assert!(!spells(&cs, 4, 8, "get"));
    assert!(spells(&cs, 4, 8, "gets"));
    assert!(!spells(&cs, 9, 11, "get"));
    assert!(spells(&cs, 3, 3, ""));
    assert!(!spells(&cs, 0, 3, "geT"));
}

#[test]
fn decimals_are_written_as_std_writes_them() {
    for n in [0u32, 1, 9, 10, 11, 99, 100, 101, 200, 11211, 65535, 4294967295] {
        let mut out = String::from("n=");
        push_decimal(&mut out, n);
        assert_eq!(out, format!("n={}", n));
    }
}
