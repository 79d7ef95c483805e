use book::strs::{
    chars_of, decimal_chars, is_ascii_alphanumeric, is_ascii_digit, split_lines,
    to_ascii_lowercase, to_ascii_uppercase, trim_chars, trim_end_chars,
};

fn string_of(v: &[char]) -> String {
    v.iter().collect()
}

#[test]
fn ascii_helpers_match_std() {
    for code in 0u32..0x3000 {
        if let Some(c) = char::from_u32(code) {
            assert_eq!(is_ascii_digit(c), c.is_ascii_digit());
            assert_eq!(is_ascii_alphanumeric(c), c.is_ascii_alphanumeric());
            assert_eq!(to_ascii_lowercase(c), c.to_ascii_lowercase());
            assert_eq!(to_ascii_uppercase(c), c.to_ascii_uppercase());
        }
    }
}

#[test]
fn line_splitting_matches_std() {
    for s in ["", "a", "a\n", "a\nb", "a\r\nb\r\n", "\n\n", "x\r", "x\ry\n", "\r\n", "a\n\r\nb"] {
        let chars = chars_of(s);
        let ours: Vec<String> = split_lines(&chars).iter().map(|l| string_of(l)).collect();
        let std: Vec<String> = s.lines().map(str::to_string).collect();
        assert_eq!(ours, std, "{s:?}");
    }
}

#[test]
fn trimming_matches_std() {
    for s in ["", "  ", " a ", "\u{3000}中\u{3000}", "\tb\n", "a  b", "\u{85}x\u{a0}"] {
        let chars = chars_of(s);
        assert_eq!(string_of(&trim_chars(&chars)), s.trim(), "{s:?}");
        assert_eq!(string_of(&trim_end_chars(&chars)), s.trim_end(), "{s:?}");
    }
}

#[test]
fn numbers_are_written_in_decimal() {
    for n in [0usize, 7, 10, 99, 100, 12345, usize::MAX] {
        assert_eq!(string_of(&decimal_chars(n)), n.to_string());
    }
}
