use todox::text::{chars_of, parse_usize_chars, push_decimal, split_lines, string_of, trimmed};

#[test]
fn lines_like_str_lines() {
    for s in ["", "a", "a\n", "a\r\nb", "\n\n", "x\r", "a\r\r\nb\n"] {
        let got: Vec<String> = split_lines(&chars_of(s)).iter().map(|l| string_of(l)).collect();
        let want: Vec<String> = s.lines().map(|l| l.to_string()).collect();
        assert_eq!(got, want, "input {s:?}");
    }
}

#[test]
fn trim_like_str_trim() {
    for s in ["  a b \t", "\u{3000}x\u{a0}", "", "   "] {
        assert_eq!(string_of(&trimmed(&chars_of(s))), s.trim());
    }
}

#[test]
fn parse_like_str_parse() {
    for s in ["0", "+7", "007", "", "+", "-1", "1a", "18446744073709551615", "18446744073709551616"] {
        assert_eq!(parse_usize_chars(&chars_of(s)), s.parse::<usize>().ok(), "input {s:?}");
    }
}

#[test]
fn decimal_like_display() {
    for n in [0usize, 9, 10, 1234567, usize::MAX] {
        let mut out = Vec::new();
        push_decimal(&mut out, n);
        assert_eq!(string_of(&out), n.to_string());
    }
}
