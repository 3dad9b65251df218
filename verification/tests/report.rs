use weather_stats::aggregate::aggregate;
use weather_stats::error::FormatError;
use weather_stats::report::{mean_of, render, report, summarize, ReportLine};
use weather_stats::table::{Stats, Table};

fn text(region: &[u8]) -> String {
    String::from_utf8(summarize(region).unwrap()).unwrap()
}

#[test]
fn one_record_of_one_key() {
    assert_eq!(text(b"X;10.0\n"), "{X=10.0/10.0/10.0}");
}

#[test]
fn three_records_of_one_key() {
    assert_eq!(text(b"X;10.0\nX;20.0\nX;0.0\n"), "{X=0.0/10.0/20.0}");
}

#[test]
fn keys_come_out_in_ascending_order() {
    assert_eq!(
        text(b"Zurich;1.0\nAthens;2.0\nZurich;3.0\nAthens;4.0\n"),
        "{Athens=2.0/3.0/4.0, Zurich=1.0/2.0/3.0}"
    );
}

#[test]
fn the_last_line_needs_no_newline() {
    assert_eq!(text(b"X;10.0\nX;20.0"), "{X=10.0/15.0/20.0}");
    assert_eq!(text(b"X;10.0\nY;-20.0"), "{X=10.0/10.0/10.0, Y=-20.0/-20.0/-20.0}");
    assert_eq!(text(b"X;10.0"), "{X=10.0/10.0/10.0}");
}

#[test]
fn comments_alone_give_the_empty_summary() {
    assert_eq!(text(b"#comment\n"), "{}");
    assert_eq!(text(b"#comment"), "{}");
    assert_eq!(text(b"#one\n#two\n"), "{}");
}

#[test]
fn an_empty_region_gives_the_empty_summary() {
    assert_eq!(text(b""), "{}");
}

#[test]
fn comments_are_left_out() {
    assert_eq!(text(b"#X;99.9\nX;10.0\n#X;-99.9\nX;20.0\n#end"), "{X=10.0/15.0/20.0}");
    assert_eq!(text(b"# a;b\nX;10.0\n"), "{X=10.0/10.0/10.0}");
}

#[test]
fn a_bad_line_gives_no_summary() {
    assert_eq!(summarize(b"X;10.0\nY\n"), Err(FormatError::MissingSeparator));
    assert_eq!(summarize(b"X;10.0\nY;ten\n"), Err(FormatError::MalformedValue));
    assert_eq!(summarize(b"X;10.0\nY;1.00\n"), Err(FormatError::MalformedValue));
}

#[test]
fn the_mean_is_rounded_to_the_nearest_tenth() {
    assert_eq!(text(b"X;0.1\nX;0.2\nX;0.2\n"), "{X=0.1/0.2/0.2}");
    assert_eq!(text(b"X;0.1\nX;0.1\nX;0.2\n"), "{X=0.1/0.1/0.2}");
    assert_eq!(text(b"X;-0.1\nX;-0.2\nX;-0.2\n"), "{X=-0.2/-0.2/-0.1}");
    assert_eq!(text(b"X;1.0\nX;2.0\nX;2.0\n"), "{X=1.0/1.7/2.0}");
}

#[test]
fn a_half_is_rounded_away_from_zero() {
    assert_eq!(text(b"X;0.1\nX;0.2\n"), "{X=0.1/0.2/0.2}");
    assert_eq!(text(b"X;-0.1\nX;-0.2\n"), "{X=-0.2/-0.2/-0.1}");
    assert_eq!(text(b"X;0.0\nX;0.1\n"), "{X=0.0/0.1/0.1}");
    assert_eq!(text(b"X;0.0\nX;-0.1\n"), "{X=-0.1/-0.1/0.0}");
}

#[test]
fn a_mean_that_rounds_to_zero_has_no_sign() {
    assert_eq!(text(b"X;-0.1\nX;0.0\nX;0.0\n"), "{X=-0.1/0.0/0.0}");
}

#[test]
fn the_mean_of_stored_statistics() {
    assert_eq!(mean_of(Stats { count: 1, min: 7, max: 7, sum: 7 }), 7);
    assert_eq!(mean_of(Stats { count: 3, min: 0, max: 200, sum: 300 }), 100);
    assert_eq!(mean_of(Stats { count: 3, min: 0, max: 10, sum: 10 }), 3);
    assert_eq!(mean_of(Stats { count: 3, min: -10, max: 0, sum: -10 }), -3);
    assert_eq!(mean_of(Stats { count: 3, min: 0, max: 5, sum: 5 }), 2);
    assert_eq!(mean_of(Stats { count: 2, min: 0, max: 1, sum: 1 }), 1);
    assert_eq!(mean_of(Stats { count: 2, min: -1, max: 0, sum: -1 }), -1);
    assert_eq!(mean_of(Stats { count: 4, min: 0, max: 1, sum: 1 }), 0);
    assert_eq!(mean_of(Stats { count: 4, min: -1, max: 0, sum: -1 }), 0);
}

#[test]
fn the_mean_at_the_ends_of_the_range() {
    let count = u64::MAX;
    let hot = Stats { count, min: i16::MAX, max: i16::MAX, sum: count as i128 * i16::MAX as i128 };
    let cold = Stats { count, min: i16::MIN, max: i16::MIN, sum: count as i128 * i16::MIN as i128 };
    assert_eq!(mean_of(hot), i16::MAX);
    assert_eq!(mean_of(cold), i16::MIN);
}

#[test]
fn the_mean_lies_between_the_least_and_the_greatest() {
    let table = aggregate(b"a;-99.9\na;99.9\na;0.1\nb;5.5\nb;5.6\nc;-0.1\nc;-0.2\nc;-0.2\n")
        .unwrap();
    let lines = report(&table);
    assert_eq!(lines.len(), 3);
    for line in &lines {
        assert!(line.min <= line.mean && line.mean <= line.max);
    }
    assert_eq!(lines[0], ReportLine { key: b"a".to_vec(), min: -999, mean: 0, max: 999 });
    assert_eq!(lines[1], ReportLine { key: b"b".to_vec(), min: 55, mean: 56, max: 56 });
    assert_eq!(lines[2], ReportLine { key: b"c".to_vec(), min: -2, mean: -2, max: -1 });
}

#[test]
fn no_key_occurs_twice_and_each_comes_after_the_one_before() {
    let region = b"d;1.0\nb;1.0\na;1.0\nc;1.0\nb;2.0\nd;2.0\nab;1.0\n;0.0\nB;1.0\n";
    let lines = report(&aggregate(region).unwrap());
    assert_eq!(lines.len(), 7);
    for i in 1..lines.len() {
        assert!(lines[i - 1].key < lines[i].key);
    }
    assert_eq!(
        text(region),
        "{=0.0/0.0/0.0, B=1.0/1.0/1.0, a=1.0/1.0/1.0, ab=1.0/1.0/1.0, b=1.0/1.5/2.0, \
         c=1.0/1.0/1.0, d=1.0/1.5/2.0}"
    );
}

#[test]
fn the_report_of_an_empty_table_is_empty() {
    let lines = report(&Table::new());
    assert!(lines.is_empty());
    assert_eq!(render(&lines), b"{}".to_vec());
}

#[test]
fn entries_are_parted_by_a_comma_and_a_space() {
    let lines = vec![
        ReportLine { key: b"k1".to_vec(), min: -10, mean: 0, max: 10 },
        ReportLine { key: b"k2".to_vec(), min: 5, mean: 1234, max: 32767 },
        ReportLine { key: b"".to_vec(), min: -32768, mean: -1, max: 0 },
    ];
    assert_eq!(
        render(&lines),
        b"{k1=-1.0/0.0/1.0, k2=0.5/123.4/3276.7, =-3276.8/-0.1/0.0}".to_vec()
    );
    let one = vec![ReportLine { key: b"k1".to_vec(), min: -10, mean: 0, max: 10 }];
    assert_eq!(render(&one), b"{k1=-1.0/0.0/1.0}".to_vec());
}

#[test]
fn keys_of_other_bytes_are_kept_as_they_are() {
    let out = summarize("Zürich;1.0\nZurich;2.0\n".as_bytes()).unwrap();
    assert_eq!(String::from_utf8(out).unwrap(), "{Zurich=2.0/2.0/2.0, Zürich=1.0/1.0/1.0}");
    assert_eq!(summarize(&[0xff, b';', b'1', b'.', b'0']).unwrap(), b"{\xff=1.0/1.0/1.0}".to_vec());
}

#[test]
fn a_long_line_is_read_whole() {
    assert_eq!(
        text(b"a-station-with-a-name-of-more-than-thirty-two-bytes;12.3\n"),
        "{a-station-with-a-name-of-more-than-thirty-two-bytes=12.3/12.3/12.3}"
    );
}
