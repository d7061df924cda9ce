use ce_exo::text::{is_whitespace, join, left_column, pieces, read_number, right_column, same, split_at_last, split_lines, split_parts, split_words, starts_with, strip_prefix, take_chars, trim, trim_slashes, truncate, word_count, write_decimal, write_in_base};

const SAMPLES: [&str; 16] = [
    "",
    " ",
    "one",
    " one",
    "one ",
    "one two",
    "  one\t two\nthree \u{2003}four\u{a0}",
    "a\r\nb\n\nc\r",
    "\n",
    "\r\n\r\n",
    "naïve café — naïve",
    "日本語 テキスト\u{3000}です",
    "line one\nline two\nline three",
    "trailing\n",
    "\u{2028}\u{2029}x\u{85}",
    "a,b,,c,",
];

#[test]
fn white_space_is_that_of_unicode() {
    for code in 0..=0x10ffffu32 {
        if let Some(c) = char::from_u32(code) {
            assert_eq!(is_whitespace(c), c.is_whitespace(), "{code:x}");
        }
    }
}

#[test]
fn texts_are_split_as_usual() {
    for s in SAMPLES {
        assert_eq!(split_words(s), s.split_whitespace().collect::<Vec<_>>());
        assert_eq!(word_count(s) as usize, s.split_whitespace().count());
        assert_eq!(pieces(s), s.split_inclusive(char::is_whitespace).collect::<Vec<_>>());
        assert_eq!(split_lines(s), s.lines().collect::<Vec<_>>());
        assert_eq!(split_parts(s, ','), s.split(',').collect::<Vec<_>>());
        assert_eq!(trim(s), s.trim());
        assert_eq!(pieces(s).concat(), s);
        assert_eq!(split_at_last(s, ','), s.rsplit_once(','));
    }
}

#[test]
fn numbers_are_read_and_written_as_usual() {
    for s in ["0", "7", "+7", "007", "18446744073709551615", "18446744073709551616", "", "+", "-1",
        "1 ", " 1", "1_0", "0x1", "99999999999999999999999999", "++1", "٣"]
    {
        assert_eq!(read_number(s, u64::MAX), s.parse::<u64>().ok(), "{s}");
        assert_eq!(read_number(s, u16::MAX as u64), s.parse::<u16>().ok().map(u64::from), "{s}");
    }
    for n in [0u64, 1, 9, 10, 99, 100, 65_535, u64::MAX] {
        assert_eq!(write_decimal(n), n.to_string());
        assert_eq!(write_in_base(n as u128, 16), format!("{n:x}"));
        assert_eq!(write_in_base(n as u128, 2), format!("{n:b}"));
    }
    assert_eq!(write_in_base(u128::MAX, 16), format!("{:x}", u128::MAX));
}

#[test]
fn beginnings_and_ends() {
    assert!(starts_with("llama3.1", "llama3") && starts_with("x", "") && !starts_with("a", "ab"));
    assert_eq!(strip_prefix("data: x", "data: "), Some("x"));
    assert_eq!(strip_prefix("data:x", "data: "), None);
    assert!(same("é", "é") && !same("a", "b"));
    assert_eq!(take_chars("日本語", 2), "日本");
    assert_eq!(take_chars("ab", 5), "ab");
    assert_eq!(truncate("abcdef", 3), "abc…");
    assert_eq!(truncate("abc", 3), "abc");
    assert_eq!(trim_slashes("http://x//"), "http://x");
    assert_eq!(trim_slashes("///"), "");
    assert_eq!(split_at_last("a:b:c", ':'), Some(("a:b", "c")));
    assert_eq!(split_at_last("abc", ':'), None);
}

#[test]
fn joins_and_columns() {
    let list: Vec<String> = vec!["a".into(), "".into(), "c".into()];
    assert_eq!(join(&list, ", "), list.join(", "));
    assert_eq!(join(&vec![], ", "), "");
    assert_eq!(left_column("né", 4), format!("{:<4}", "né"));
    assert_eq!(right_column("né", 4), format!("{:>4}", "né"));
    assert_eq!(left_column("long", 2), "long");
    assert_eq!(right_column("long", 2), "long");
}
