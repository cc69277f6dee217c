use sim_runner::text::chars_of;
use sim_runner::text::decimal;
use sim_runner::text::find_in;
use sim_runner::text::parse_decimal_in;
use sim_runner::text::trim_bounds;
use sim_runner::text::white_space;

#[test]
fn decimal_formats_like_to_string() {
    for n in [0u64, 7, 10, 42, 1000, 1234567890, u64::MAX] {
        assert_eq!(decimal(n), n.to_string());
    }
}

#[test]
fn decimal_round_trips_through_parse() {
    for n in [0u64, 9, 10, 99, 100, 65535, u64::MAX] {
        let cs = chars_of(&decimal(n));
        assert_eq!(parse_decimal_in(&cs, 0, cs.len(), u64::MAX), Some(n));
    }
}

#[test]
fn parse_decimal_matches_from_str() {
    for s in ["", "+", "-", "0", "+0", "-0", "007", "12a", " 1", "4294967295", "4294967296", "++1"] {
        let cs = chars_of(s);
        assert_eq!(
            parse_decimal_in(&cs, 0, cs.len(), u32::MAX as u64),
            s.parse::<u32>().ok().map(|v| v as u64),
            "input {s:?}"
        );
    }
}

#[test]
fn white_space_matches_std() {
    for c in ['\t', '\n', '\u{b}', '\u{c}', '\r', ' ', '\u{85}', '\u{a0}', '\u{1680}', '\u{2000}', '\u{200a}', '\u{2028}', '\u{2029}', '\u{202f}', '\u{205f}', '\u{3000}', 'a', '0', '\u{200b}', '\u{180e}', '\u{feff}'] {
        assert_eq!(white_space(c), c.is_whitespace(), "char {:?}", c);
    }
}

#[test]
fn trim_bounds_match_trim() {
    for s in ["", "   ", " a ", "\u{3000}x y\t", "abc", "\n\n7"] {
        let cs = chars_of(s);
        let (a, b) = trim_bounds(&cs, 0, cs.len());
        let got: String = cs[a..b].iter().collect();
        assert_eq!(got, s.trim());
    }
}

#[test]
fn find_gives_first_occurrence() {
    let s = chars_of("abcabc");
    assert_eq!(find_in(&s, &chars_of("bc"), 0), Some(1));
    assert_eq!(find_in(&s, &chars_of("bc"), 2), Some(4));
    assert_eq!(find_in(&s, &chars_of("x"), 0), None);
    assert_eq!(find_in(&s, &chars_of(""), 3), Some(3));
    assert_eq!(find_in(&s, &chars_of("abcabcd"), 0), None);
}
