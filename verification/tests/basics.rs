use lkml_core::number::{parse_i64, parse_u32, parse_usize, push_decimal};
use lkml_core::order::sort_stable;
use lkml_core::text::{chars_of, find, is_whitespace, lines, split_whitespace, string_of, trim};
use lkml_core::time::{Timestamp, MAX_SECS, MIN_SECS};

fn row(s: &str) -> Vec<char> {
    chars_of(s)
}

fn texts(rows: Vec<Vec<char>>) -> Vec<String> {
    rows.iter().map(|r| string_of(r)).collect()
}

#[test]
fn numbers_are_read_like_rust_reads_them() {
    for s in ["", "0", "007", "+5", "+", "-", "-5", "4294967295", "4294967296", "1 ", "٣"] {
        assert_eq!(parse_u32(&row(s)), s.parse::<u32>().ok(), "{s}");
        assert_eq!(parse_usize(&row(s)), s.parse::<usize>().ok(), "{s}");
        assert_eq!(parse_i64(&row(s)), s.parse::<i64>().ok(), "{s}");
    }
    for s in ["9223372036854775807", "9223372036854775808", "-9223372036854775808", "--1", "-+1"] {
        assert_eq!(parse_i64(&row(s)), s.parse::<i64>().ok(), "{s}");
    }
}

#[test]
fn numbers_are_written_and_read_back() {
    for n in [0, 9, 10, 123, 4294967295] {
        let mut out = String::from("n=");
        push_decimal(&mut out, n);
        assert_eq!(out, format!("n={n}"));
        assert_eq!(parse_u32(&row(&out[2..])), Some(n));
    }
}

#[test]
fn white_space_is_what_rust_takes_it_for() {
    for c in '\0'..=char::MAX {
        assert_eq!(is_whitespace(c), c.is_whitespace(), "{c:?}");
    }
}

#[test]
fn lines_end_like_rust_ends_them() {
    for s in ["", "a", "a\n", "a\n\nb", "a\r\nb\r", "\n", "\r\n", "a\rb\n"] {
        assert_eq!(texts(lines(&row(s))), s.lines().collect::<Vec<_>>(), "{s:?}");
    }
}

#[test]
fn words_and_trimming_follow_unicode() {
    for s in ["", " a\tb\u{a0}c\u{3000}", "\u{85}x", "\u{200b}x", "a  b"] {
        assert_eq!(
            texts(split_whitespace(&row(s))),
            s.split_whitespace().collect::<Vec<_>>(),
            "{s:?}"
        );
        assert_eq!(string_of(trim(&row(s))), s.trim(), "{s:?}");
    }
}

#[test]
fn white_space_is_what_rust_says_it_is() {
    for c in '\0'..='\u{ffff}' {
        let padded = format!("{c}x");
        assert_eq!(string_of(trim(&row(&padded))), padded.trim(), "{c:?}");
    }
}

#[test]
fn the_first_match_is_found() {
    assert_eq!(find(&row("abcabc"), &row("ca")), Some(2));
    assert_eq!(find(&row("abc"), &row("")), Some(0));
    assert_eq!(find(&row("abc"), &row("abcd")), None);
}

#[test]
fn sorting_is_stable() {
    assert_eq!(sort_stable(&vec![3, 1, 2, 1, 3]), [1, 3, 2, 0, 4]);
    assert!(sort_stable(&vec![]).is_empty());
    assert_eq!(sort_stable(&vec![i128::MAX, i128::MIN]), [1, 0]);
}

#[test]
fn points_in_time_are_those_of_the_calendar() {
    assert!(Timestamp::new(MIN_SECS, 0).is_some());
    assert!(Timestamp::new(MIN_SECS - 1, 0).is_none());
    assert!(Timestamp::new(MAX_SECS, 1_999_999_999).is_some());
    assert!(Timestamp::new(MAX_SECS + 1, 0).is_none());
    assert!(Timestamp::new(0, 2_000_000_000).is_none());
    for secs in [MIN_SECS, MAX_SECS] {
        assert!(chrono::DateTime::from_timestamp(secs, 0).is_some());
    }
    assert!(chrono::DateTime::from_timestamp(MIN_SECS - 1, 0).is_none());
    assert!(chrono::DateTime::from_timestamp(MAX_SECS + 1, 0).is_none());
    let a = Timestamp::new(5, 1).unwrap();
    let b = Timestamp::new(5, 2).unwrap();
    assert!(a.is_before(&b) && !b.is_before(&a) && !a.is_before(&a));
}
