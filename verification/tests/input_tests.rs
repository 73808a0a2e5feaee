use nitc_blocks::input::{is_white_space_char, read_i32, split_words, trimmed};

fn chars(s: &str) -> Vec<char> {
    s.chars().collect()
}

#[test]
fn white_space_is_unicode_white_space() {
    for code in 0u32..=0x10FFFF {
        if let Some(c) = char::from_u32(code) {
            assert_eq!(is_white_space_char(c), c.is_whitespace(), "{:?}", c);
        }
    }
}

#[test]
fn integers_read_like_from_str() {
    for s in [
        "0", "7", "+5", "-0", "007", "-12", "2147483647", "2147483648", "-2147483648",
        "-2147483649", "", "-", "+", "1a", " 1", "1 ", "99999999999999999999", "--1", "+-1", "٣",
        "-00000000000000000000000001",
    ] {
        assert_eq!(read_i32(&chars(s)), s.parse::<i32>().ok(), "{:?}", s);
    }
}

#[test]
fn words_split_like_split_whitespace() {
    for s in ["", "   ", "a", " a  bc\td ", "x\u{3000}y\u{85}z", "é ü", "a\r\nb"] {
        let got: Vec<String> = split_words(&chars(s)).iter().map(|w| w.iter().collect()).collect();
        let expected: Vec<String> = s.split_whitespace().map(|w| w.to_string()).collect();
        assert_eq!(got, expected, "{:?}", s);
    }
}

#[test]
fn trimming_like_trim() {
    for s in ["", "  ", " a ", "\t12\u{a0}", "a b", "\u{2000}x"] {
        let got: String = trimmed(&chars(s)).iter().collect();
        assert_eq!(got, s.trim(), "{:?}", s);
    }
}
