use audiobook::text::{
    begins_with, chars_of, contains_text, decimal_text, finishes_with, is_white_char, lowered,
    padded_decimal_text, read_i32, string_of, trimmed, with_replaced,
};

#[test]
fn white_space_is_that_of_unicode() {
    for n in 0..=0x10ffffu32 {
        if let Some(c) = char::from_u32(n) {
            assert_eq!(is_white_char(c), c.is_whitespace(), "{:#x}", n);
        }
    }
}

#[test]
fn trimming_agrees_with_std() {
    for s in ["", " ", "\u{3000}章\u{3000}", "a b", "\t\r\n x \u{85}\u{a0}", "\u{200b}x "] {
        assert_eq!(string_of(&trimmed(&chars_of(s))), s.trim());
    }
}

#[test]
fn lower_case_is_that_of_ascii() {
    for s in ["Hz", "DEFAULT", "ÄÖ", "mP3", "[@`{"] {
        assert_eq!(string_of(&lowered(&chars_of(s))), s.to_ascii_lowercase());
    }
}

#[test]
fn replacing_agrees_with_std() {
    for (s, pat, rep) in [
        ("aaaa", "aa", "b"),
        ("aaa", "aa", "b"),
        ("&nbsp;&nbsp;x", "&nbsp;", " "),
        ("&nb&nbsp;sp;", "&nbsp;", " "),
        ("\r\n\r", "\r", "\n"),
        ("", "x", "y"),
    ] {
        assert_eq!(string_of(&with_replaced(&chars_of(s), pat, rep)), s.replace(pat, rep));
    }
}

#[test]
fn places_are_found_as_std_finds_them() {
    for (s, pat) in [("riff-x", "riff-"), ("xwavx", "wav"), ("wa", "wav"), ("pcm", "pcm"), ("", "")] {
        let chars = chars_of(s);
        assert_eq!(begins_with(&chars, pat), s.starts_with(pat));
        assert_eq!(finishes_with(&chars, pat), s.ends_with(pat));
        assert_eq!(contains_text(&chars, pat), s.contains(pat));
    }
}

#[test]
fn integers_are_read_as_std_reads_them() {
    for s in [
        "0", "-0", "+7", "12", "2147483647", "2147483648", "-2147483648", "-2147483649", "+", "-",
        "", "1.5", "1 ", "٣", "00000000000000000000012", "99999999999999999999", "+-1",
    ] {
        assert_eq!(read_i32(&chars_of(s)), s.parse::<i32>().ok(), "{}", s);
    }
}

#[test]
fn numbers_are_written_as_std_writes_them() {
    for n in [0u64, 7, 10, 99, 1000, 12345, u64::MAX] {
        assert_eq!(decimal_text(n), n.to_string());
        assert_eq!(padded_decimal_text(n, 4), format!("{:04}", n));
    }
}
