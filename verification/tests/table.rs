use weather_stats::aggregate::{aggregate, take_line};
use weather_stats::error::FormatError;
use weather_stats::table::{Stats, Table};

#[test]
fn a_new_table_is_empty() {
    let table = Table::new();
    assert_eq!(table.len(), 0);
    assert_eq!(table.records(), 0);
    assert_eq!(table.get(b"X"), None);
}

#[test]
fn a_new_key_enters_with_one_value() {
    let mut table = Table::new();
    table.update(b"X", -52);
    assert_eq!(table.len(), 1);
    assert_eq!(table.records(), 1);
    assert_eq!(table.get(b"X"), Some(Stats { count: 1, min: -52, max: -52, sum: -52 }));
}

#[test]
fn a_known_key_takes_the_value_in() {
    let mut table = Table::new();
    table.update(b"X", 100);
    table.update(b"X", 200);
    assert_eq!(table.get(b"X"), Some(Stats { count: 2, min: 100, max: 200, sum: 300 }));
    table.update(b"X", 0);
    assert_eq!(table.get(b"X"), Some(Stats { count: 3, min: 0, max: 200, sum: 300 }));
    table.update(b"X", 150);
    assert_eq!(table.get(b"X"), Some(Stats { count: 4, min: 0, max: 200, sum: 450 }));
    assert_eq!(table.len(), 1);
    assert_eq!(table.records(), 4);
}

#[test]
fn another_key_is_left_alone() {
    let mut table = Table::new();
    table.update(b"X", 100);
    table.update(b"Y", -100);
    table.update(b"X", 300);
    assert_eq!(table.get(b"Y"), Some(Stats { count: 1, min: -100, max: -100, sum: -100 }));
    assert_eq!(table.get(b"X"), Some(Stats { count: 2, min: 100, max: 300, sum: 400 }));
    assert_eq!(table.get(b"Z"), None);
    assert_eq!(table.get(b""), None);
}

#[test]
fn the_table_holds_its_keys_in_ascending_order() {
    let mut table = Table::new();
    let keys: [&[u8]; 6] = [b"Zurich", b"Athens", b"Oslo", b"", b"Athen", b"Rome"];
    for (i, key) in keys.iter().enumerate() {
        table.update(key, i as i16);
    }
    table.update(b"Oslo", 50);
    assert_eq!(table.len(), 6);
    let sorted: [&[u8]; 6] = [b"", b"Athen", b"Athens", b"Oslo", b"Rome", b"Zurich"];
    for (i, key) in sorted.iter().enumerate() {
        assert_eq!(table.key_at(i), *key);
    }
    for i in 1..table.len() {
        assert!(table.key_at(i - 1) < table.key_at(i));
    }
    assert_eq!(table.stats_at(3), Stats { count: 2, min: 2, max: 50, sum: 52 });
    assert_eq!(table.stats_at(5), Stats { count: 1, min: 0, max: 0, sum: 0 });
}

#[test]
fn the_total_is_exact_for_many_values() {
    let mut table = Table::new();
    for _ in 0..100_000 {
        table.update(b"hot", i16::MAX);
        table.update(b"cold", i16::MIN);
    }
    assert_eq!(
        table.get(b"hot"),
        Some(Stats { count: 100_000, min: i16::MAX, max: i16::MAX, sum: 3_276_700_000 })
    );
    assert_eq!(
        table.get(b"cold"),
        Some(Stats { count: 100_000, min: i16::MIN, max: i16::MIN, sum: -3_276_800_000 })
    );
    assert_eq!(table.records(), 200_000);
}

#[test]
fn a_line_that_is_a_record_is_taken() {
    let mut table = Table::new();
    assert_eq!(take_line(&mut table, b"X;10.0"), Ok(()));
    assert_eq!(take_line(&mut table, b"X;-2.5"), Ok(()));
    assert_eq!(table.get(b"X"), Some(Stats { count: 2, min: -25, max: 100, sum: 75 }));
    assert_eq!(table.records(), 2);
}

#[test]
fn a_comment_changes_nothing() {
    let mut table = Table::new();
    assert_eq!(take_line(&mut table, b"#X;10.0"), Ok(()));
    assert_eq!(take_line(&mut table, b"#"), Ok(()));
    assert_eq!(take_line(&mut table, b"# no separator here"), Ok(()));
    assert_eq!(table.len(), 0);
    assert_eq!(table.records(), 0);
}

#[test]
fn a_rejected_line_changes_nothing() {
    let mut table = Table::new();
    take_line(&mut table, b"X;10.0").unwrap();
    assert_eq!(take_line(&mut table, b"X 20.0"), Err(FormatError::MissingSeparator));
    assert_eq!(take_line(&mut table, b""), Err(FormatError::MissingSeparator));
    assert_eq!(take_line(&mut table, b"X;20"), Err(FormatError::MalformedValue));
    assert_eq!(take_line(&mut table, b"X;20.0\n"), Err(FormatError::MalformedValue));
    assert_eq!(take_line(&mut table, b"X;1;2.0"), Err(FormatError::MalformedValue));
    assert_eq!(table.get(b"X"), Some(Stats { count: 1, min: 100, max: 100, sum: 100 }));
    assert_eq!(table.records(), 1);
}

#[test]
fn a_region_gives_the_statistics_of_each_key() {
    let table = aggregate(b"b;1.0\na;2.0\n#c;3.0\nb;-1.5\n").unwrap();
    assert_eq!(table.len(), 2);
    assert_eq!(table.records(), 3);
    assert_eq!(table.get(b"a"), Some(Stats { count: 1, min: 20, max: 20, sum: 20 }));
    assert_eq!(table.get(b"b"), Some(Stats { count: 2, min: -15, max: 10, sum: -5 }));
    assert_eq!(table.get(b"c"), None);
}

#[test]
fn a_region_and_its_lines_give_the_same_table() {
    let region: &[u8] = b"b;1.0\n#note\na;2.0\nb;-1.5\na;99.9";
    let whole = aggregate(region).unwrap();
    let mut by_line = Table::new();
    for line in region.split(|b| *b == b'\n') {
        take_line(&mut by_line, line).unwrap();
    }
    assert_eq!(whole.len(), by_line.len());
    assert_eq!(whole.records(), by_line.records());
    for i in 0..whole.len() {
        assert_eq!(whole.key_at(i), by_line.key_at(i));
        assert_eq!(whole.stats_at(i), by_line.stats_at(i));
    }
}

#[test]
fn the_first_bad_line_decides_the_error() {
    assert!(matches!(aggregate(b"a;1.0\nb\nc;x\n"), Err(FormatError::MissingSeparator)));
    assert!(matches!(aggregate(b"a;1.0\nc;x\nb\n"), Err(FormatError::MalformedValue)));
    assert!(matches!(aggregate(b"a;1.0\n\nb;2.0\n"), Err(FormatError::MissingSeparator)));
    assert!(matches!(aggregate(b"a;1.0\r\n"), Err(FormatError::MalformedValue)));
    assert!(matches!(aggregate(b"a;1.0\n "), Err(FormatError::MissingSeparator)));
}
