use weather_stats::error::FormatError;
use weather_stats::key::{compare_keys, KeyOrder};
use weather_stats::scan::{find_byte_from, skip_line, split_line};

#[test]
fn parts_a_line_at_the_separator() {
    let (key, value, rest) = split_line(b"Oslo;-3.4\nRome;21.0\n").unwrap();
    assert_eq!(key, b"Oslo");
    assert_eq!(value, b"-3.4");
    assert_eq!(rest, b"Rome;21.0\n");
}

#[test]
fn the_end_of_the_region_ends_the_last_line() {
    let (key, value, rest) = split_line(b"Rome;21.0").unwrap();
    assert_eq!(key, b"Rome");
    assert_eq!(value, b"21.0");
    assert_eq!(rest, b"");
}

#[test]
fn parts_at_the_first_separator_only() {
    let (key, value, rest) = split_line(b"a;b;c\nd").unwrap();
    assert_eq!(key, b"a");
    assert_eq!(value, b"b;c");
    assert_eq!(rest, b"d");
}

#[test]
fn takes_an_empty_key_and_an_empty_value() {
    let (key, value, rest) = split_line(b";\n").unwrap();
    assert_eq!(key, b"");
    assert_eq!(value, b"");
    assert_eq!(rest, b"");
}

#[test]
fn takes_a_line_longer_than_thirty_two_bytes() {
    let (key, value, rest) =
        split_line(b"a-station-with-a-name-of-more-than-thirty-two-bytes;12.3\nnext").unwrap();
    assert_eq!(key, b"a-station-with-a-name-of-more-than-thirty-two-bytes".as_slice());
    assert_eq!(value, b"12.3");
    assert_eq!(rest, b"next");
}

#[test]
fn rejects_a_line_without_separator() {
    assert_eq!(split_line(b"Oslo 3.4\n"), Err(FormatError::MissingSeparator));
    assert_eq!(split_line(b"Oslo"), Err(FormatError::MissingSeparator));
    assert_eq!(split_line(b"\n"), Err(FormatError::MissingSeparator));
    assert_eq!(split_line(b""), Err(FormatError::MissingSeparator));
}

#[test]
fn a_separator_of_a_later_line_does_not_count() {
    assert_eq!(split_line(b"Oslo\nRome;21.0\n"), Err(FormatError::MissingSeparator));
}

#[test]
fn skipping_moves_past_the_newline() {
    assert_eq!(skip_line(b"#note\nRome;21.0\n"), b"Rome;21.0\n");
    assert_eq!(skip_line(b"#note\n"), b"");
    assert_eq!(skip_line(b"#note"), b"");
    assert_eq!(skip_line(b"\n\n"), b"\n");
    assert_eq!(skip_line(b""), b"");
}

#[test]
fn finds_the_first_byte_from_a_start() {
    assert_eq!(find_byte_from(b"a;b;c", 0, b';'), 1);
    assert_eq!(find_byte_from(b"a;b;c", 1, b';'), 1);
    assert_eq!(find_byte_from(b"a;b;c", 2, b';'), 3);
    assert_eq!(find_byte_from(b"a;b;c", 4, b';'), 5);
    assert_eq!(find_byte_from(b"a;b;c", 5, b';'), 5);
    assert_eq!(find_byte_from(b"", 0, b';'), 0);
}

#[test]
fn keys_are_ordered_byte_by_byte() {
    assert_eq!(compare_keys(b"Athens", b"Zurich"), KeyOrder::Before);
    assert_eq!(compare_keys(b"Zurich", b"Athens"), KeyOrder::After);
    assert_eq!(compare_keys(b"Athens", b"Athens"), KeyOrder::Same);
    assert_eq!(compare_keys(b"abd", b"abc"), KeyOrder::After);
    assert_eq!(compare_keys(b"Z", b"a"), KeyOrder::Before);
}

#[test]
fn a_prefix_comes_first() {
    assert_eq!(compare_keys(b"", b""), KeyOrder::Same);
    assert_eq!(compare_keys(b"", b"a"), KeyOrder::Before);
    assert_eq!(compare_keys(b"a", b""), KeyOrder::After);
    assert_eq!(compare_keys(b"San", b"San Jose"), KeyOrder::Before);
    assert_eq!(compare_keys(b"San Jose", b"San"), KeyOrder::After);
}

#[test]
fn bytes_are_compared_without_sign() {
    assert_eq!(compare_keys(&[0x7f], &[0x80]), KeyOrder::Before);
    assert_eq!(compare_keys(&[0xff], &[0x00]), KeyOrder::After);
    assert_eq!(compare_keys("Zürich".as_bytes(), "Zurich".as_bytes()), KeyOrder::After);
}

#[test]
fn the_order_of_keys_is_that_of_byte_slices() {
    let keys: [&[u8]; 7] = [b"", b"a", b"ab", b"b", b"B", &[0x80, 0x01], b"a\x00"];
    for a in keys {
        for b in keys {
            let expected = if a < b {
                KeyOrder::Before
            } else if a == b {
                KeyOrder::Same
            } else {
                KeyOrder::After
            };
            assert_eq!(compare_keys(a, b), expected);
        }
    }
}
