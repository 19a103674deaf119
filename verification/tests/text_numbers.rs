use mirror_console::number::{format_u64, parse_u16, parse_u64};
use mirror_console::text::{lines, split_whitespace, trim};

fn cs(s: &str) -> Vec<char> {
    s.chars().collect()
}

fn st(v: &[char]) -> String {
    v.iter().collect()
}

#[test]
fn parse_u64_accepts_plus_and_digits() {
    assert_eq!(parse_u64(&cs("1725029869")), Some(1725029869));
    assert_eq!(parse_u64(&cs("+7")), Some(7));
    assert_eq!(parse_u64(&cs("007")), Some(7));
    assert_eq!(parse_u64(&cs("18446744073709551615")), Some(u64::MAX));
}

#[test]
fn parse_u64_rejects_what_std_rejects() {
    for s in ["", "+", "-1", "1a", " 1", "18446744073709551616", "1.0"] {
        assert_eq!(parse_u64(&cs(s)), s.parse::<u64>().ok(), "input {s:?}");
    }
}

#[test]
fn parse_u16_bounds() {
    assert_eq!(parse_u16(&cs("8100")), Some(8100));
    assert_eq!(parse_u16(&cs("65535")), Some(65535));
    assert_eq!(parse_u16(&cs("65536")), None);
    assert_eq!(parse_u16(&cs("99999999999999999999999")), None);
}

#[test]
fn format_then_parse_round_trip() {
    for n in [0u64, 9, 10, 5555, 1725029869, u64::MAX] {
        let text = format_u64(n);
        assert_eq!(st(&text), n.to_string());
        assert_eq!(parse_u64(&text), Some(n));
    }
}

#[test]
fn trim_matches_std() {
    for s in ["  abc \t\n", "\u{3000}x\u{2028}", "   ", "", "a b", "\u{85}z\u{a0}"] {
        assert_eq!(st(&trim(&cs(s))), s.trim(), "input {s:?}");
    }
}

#[test]
fn lines_match_std() {
    for s in ["a\nb\r\nc", "a\n", "", "\n\n", "x\r", "a\r\n\r\nb\n"] {
        let got: Vec<String> = lines(&cs(s)).iter().map(|l| st(l)).collect();
        let want: Vec<String> = s.lines().map(|l| l.to_string()).collect();
        assert_eq!(got, want, "input {s:?}");
    }
}

#[test]
fn words_match_std() {
    for s in ["emulator-5554\tdevice product:x", "  a  b ", "", "one\u{2003}two"] {
        let got: Vec<String> = split_whitespace(&cs(s)).iter().map(|l| st(l)).collect();
        let want: Vec<String> = s.split_whitespace().map(|l| l.to_string()).collect();
        assert_eq!(got, want, "input {s:?}");
    }
}
