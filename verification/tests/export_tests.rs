use pca_tree::export::{format_fixed, parse_fixed, to_delimited};

fn s(bytes: &[u8]) -> String {
    String::from_utf8(bytes.to_vec()).unwrap()
}

#[test]
fn format_six_decimal_places() {
    assert_eq!(s(&format_fixed(0)), "0.000000");
    assert_eq!(s(&format_fixed(1_500_000)), "1.500000");
    assert_eq!(s(&format_fixed(-1)), "-0.000001");
    assert_eq!(s(&format_fixed(-2_030_000)), "-2.030000");
    assert_eq!(s(&format_fixed(123_456_789)), "123.456789");
    assert_eq!(s(&format_fixed(i64::MAX)), "9223372036854.775807");
}

#[test]
fn parse_reads_the_format_back() {
    assert_eq!(parse_fixed(&b"0.000000".to_vec()), Some(0));
    assert_eq!(parse_fixed(&b"1.500000".to_vec()), Some(1_500_000));
    assert_eq!(parse_fixed(&b"-0.000001".to_vec()), Some(-1));
    assert_eq!(parse_fixed(&b"123.456789".to_vec()), Some(123_456_789));
}

#[test]
fn parse_rejects_malformed_text() {
    assert_eq!(parse_fixed(&b"".to_vec()), None);
    assert_eq!(parse_fixed(&b"1.5".to_vec()), None);
    assert_eq!(parse_fixed(&b".500000".to_vec()), None);
    assert_eq!(parse_fixed(&b"abc".to_vec()), None);
    assert_eq!(parse_fixed(&b"1.5000x0".to_vec()), None);
    assert_eq!(parse_fixed(&b"12345678901234567890.000000".to_vec()), None);
}

#[test]
fn format_parse_round_trip_samples() {
    for v in [
        0,
        1,
        -1,
        999_999,
        1_000_000,
        -1_000_000,
        123_456_789,
        -987_654_321,
        i64::MAX,
        i64::MIN + 1,
    ] {
        assert_eq!(parse_fixed(&format_fixed(v)), Some(v), "value {v}");
    }
}

#[test]
fn delimited_table_layout() {
    let rows = vec![vec![1_000_000i64, -2_500_000], vec![0, 42]];
    let text = to_delimited(&rows, b'\t');
    assert_eq!(s(&text), "1.000000\t-2.500000\n0.000000\t0.000042\n");
    let comma = to_delimited(&rows, b',');
    assert_eq!(s(&comma), "1.000000,-2.500000\n0.000000,0.000042\n");
}

#[test]
fn delimited_table_reparses_to_the_same_values() {
    let rows = vec![
        vec![1_234_567i64, -7_000_001, 0],
        vec![999_999, -999_999, 42_000_000],
    ];
    let text = s(&to_delimited(&rows, b'\t'));
    let mut parsed: Vec<Vec<i64>> = Vec::new();
    for line in text.lines() {
        let mut row = Vec::new();
        for field in line.split('\t') {
            row.push(parse_fixed(&field.as_bytes().to_vec()).unwrap());
        }
        parsed.push(row);
    }
    assert_eq!(parsed, rows);
}
