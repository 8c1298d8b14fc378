use rexporter::text::{parse_u64_chars, push_decimal, split_lines, split_words, to_chars, trim_chars};

fn strings(v: Vec<Vec<char>>) -> Vec<String> {
    v.into_iter().map(|w| w.into_iter().collect()).collect()
}

#[test]
fn lines_match_std() {
    for s in ["", "a", "a\n", "a\r\nb", "\n\n", "x\r", "x\r\n\r\n", "a\nb\r\nc"] {
        let mine = strings(split_lines(&to_chars(s)));
        let std: Vec<String> = s.lines().map(|l| l.to_string()).collect();
        assert_eq!(mine, std, "{s:?}");
    }
}

#[test]
fn words_match_std() {
    for s in ["", "  a b\tc\n", "\u{3000}x\u{a0}y\u{2028}", "one", "  "] {
        let chars = to_chars(s);
        let mine = strings(split_words(&chars));
        let std: Vec<String> = s.split_whitespace().map(|l| l.to_string()).collect();
        assert_eq!(mine, std, "{s:?}");
    }
}

#[test]
fn parse_matches_std() {
    for s in [
        "0",
        "+7",
        "",
        "+",
        "-1",
        "12a",
        "18446744073709551615",
        "18446744073709551616",
        "0007",
        "++1",
    ] {
        let mine = parse_u64_chars(&to_chars(s));
        assert_eq!(mine, s.parse::<u64>().ok(), "{s:?}");
    }
}

#[test]
fn decimal_formatting_round_trips() {
    for n in [0u64, 7, 10, 1234567890, u64::MAX] {
        let mut s = String::new();
        push_decimal(&mut s, n);
        assert_eq!(s, n.to_string());
        assert_eq!(parse_u64_chars(&to_chars(&s)), Some(n));
    }
}

#[test]
fn trim_matches_std() {
    for s in ["  eth0", "lo  ", "\t x y \u{2003}", "", "   "] {
        let t: String = trim_chars(&to_chars(s)).into_iter().collect();
        assert_eq!(t, s.trim());
    }
}
