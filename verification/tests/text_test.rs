use whatport::text::{
    chars_of, cut_once, is_whitespace, join_strings, push_decimal, push_hex_byte, read_number,
    split_fields, split_lines, trimmed,
};

fn number(s: &str, radix: u64, max: u64) -> Option<u64> {
    read_number(&chars_of(s), radix, max)
}

fn texts(rows: Vec<Vec<char>>) -> Vec<String> {
    rows.into_iter().map(|row| row.into_iter().collect()).collect()
}

#[test]
fn white_space_is_what_unicode_says() {
    for c in '\0'..=char::MAX {
        assert_eq!(is_whitespace(c), c.is_whitespace(), "{:?}", c);
    }
}

#[test]
fn numbers_are_read_as_the_standard_library_reads_them() {
    for s in [
        "", "+", "-", "-0", "0", "+0", "00", "007", "+7", "++7", "a", "A", "fF", "+ff", "100", "ff ",
        " ff", "1_0", "255", "256", "0000000000000000000000000000ff", "65535", "65536", "g", "é",
        "18446744073709551615", "18446744073709551616", "99999999999999999999999999",
    ] {
        assert_eq!(number(s, 16, 0xff), u8::from_str_radix(s, 16).ok().map(u64::from), "{s}");
        assert_eq!(number(s, 16, 0xffff), u16::from_str_radix(s, 16).ok().map(u64::from), "{s}");
        assert_eq!(number(s, 10, u32::MAX as u64), s.parse::<u32>().ok().map(u64::from), "{s}");
        assert_eq!(number(s, 10, u64::MAX), s.parse::<u64>().ok(), "{s}");
    }
}

#[test]
fn decimals_are_read_back() {
    for n in [0, 7, 9, 10, 99, 100, 8080, 4294967295, u64::MAX] {
        let mut text = String::new();
        push_decimal(&mut text, n);
        assert_eq!(text, n.to_string());
        assert_eq!(number(&text, 10, u64::MAX), Some(n));
    }
}

#[test]
fn bytes_are_written_with_two_lower_case_digits() {
    for b in 0..=255u8 {
        let mut text = String::new();
        push_hex_byte(&mut text, b);
        assert_eq!(text, format!("{b:02x}"));
    }
}

#[test]
fn columns_are_runs_without_white_space() {
    assert_eq!(texts(split_fields(&chars_of("  a\tbc \u{3000} d "))), vec!["a", "bc", "d"]);
    assert!(split_fields(&chars_of(" \n ")).is_empty());
    assert!(split_fields(&[]).is_empty());
    assert_eq!(texts(split_fields(&chars_of("a b c"))), vec!["a", "b", "c"]);
}

#[test]
fn lines_are_what_stands_between_line_feeds() {
    assert_eq!(texts(split_lines(&chars_of("a\n\nb\n"))), vec!["a", "", "b", ""]);
    assert_eq!(texts(split_lines(&[])), vec![""]);
    assert_eq!(texts(split_lines(&chars_of("ab\ncd"))), vec!["ab", "cd"]);
}

#[test]
fn the_first_separator_counts() {
    let s = chars_of("a:b:c");
    let (before, after) = cut_once(&s, ':').unwrap();
    assert_eq!(before, &['a']);
    assert_eq!(after, &['b', ':', 'c']);
    assert!(cut_once(&s, ';').is_none());
}

#[test]
fn trimming_takes_white_space_away_at_both_ends() {
    for s in ["", " ", "\n", "a", " a", "a\n", "\t a b \u{a0}\n", "é ", "\u{2003}x"] {
        assert_eq!(trimmed(s), s.trim());
    }
}

#[test]
fn joining_puts_the_separator_between() {
    let parts = ["a".to_string(), "".to_string(), "b".to_string()];
    assert_eq!(join_strings(&parts, ", "), "a, , b");
    assert_eq!(join_strings(&parts[..1], ", "), "a");
    assert_eq!(join_strings(&[], ", "), "");
}
