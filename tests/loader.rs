use pixel_plot::decimal::{parse_field, Decimal};
use pixel_plot::table::{load_csv, table_from_records, LoadError};

fn d(mant: i64, exp: u32) -> Decimal {
    Decimal::new(mant, exp)
}

#[test]
fn parse_field_reads_decimals() {
    assert_eq!(parse_field(b"1.5"), Some(d(15, 1)));
    assert_eq!(parse_field(b"  -2"), Some(d(-2, 0)));
    assert_eq!(parse_field(b"+.25"), Some(d(25, 2)));
    assert_eq!(parse_field(b"7."), Some(d(7, 0)));
    assert_eq!(parse_field(b"007"), Some(d(7, 0)));
}

#[test]
fn parse_field_rejects_non_numbers() {
    assert_eq!(parse_field(b"abc"), None);
    assert_eq!(parse_field(b""), None);
    assert_eq!(parse_field(b"."), None);
    assert_eq!(parse_field(b"-"), None);
    assert_eq!(parse_field(b"1.2.3"), None);
    assert_eq!(parse_field(b"1 "), None);
    assert_eq!(parse_field(b"1.5x"), None);
    assert_eq!(parse_field(b"1e"), None);
    assert_eq!(parse_field(b"1e+"), None);
    assert_eq!(parse_field(b"e5"), None);
    assert_eq!(parse_field(b".e1"), None);
    assert_eq!(parse_field(b"infinite"), None);
}

#[test]
fn parse_field_keeps_nine_fraction_digits() {
    assert_eq!(parse_field(b"0.1234567891"), Some(d(123456789, 9)));
    assert_eq!(parse_field(b"1.0000000001"), Some(d(1000000000, 9)));
    assert_eq!(parse_field(b"3.14159265358979"), Some(d(3141592653, 9)));
    assert_eq!(parse_field(b"0.30000000000000004"), Some(d(300000000, 9)));
    assert_eq!(parse_field(b"-0.1234567899"), Some(d(-123456789, 9)));
}

#[test]
fn parse_field_reads_exponents() {
    assert_eq!(parse_field(b"1e-3"), Some(d(1, 3)));
    assert_eq!(parse_field(b"1E5"), Some(d(100000, 0)));
    assert_eq!(parse_field(b"2.5e1"), Some(d(25, 0)));
    assert_eq!(parse_field(b"-7.25e+2"), Some(d(-725, 0)));
    assert_eq!(parse_field(b"1.e2"), Some(d(100, 0)));
    assert_eq!(parse_field(b"1e-400"), Some(d(0, 9)));
}

#[test]
fn parse_field_reduces_large_magnitudes() {
    let largest = 999_999_999_999_999_999;
    assert_eq!(parse_field(b"123456789012.5"), Some(d(1234567890125, 1)));
    assert_eq!(parse_field(b"12345678901.123456789"), Some(d(123456789011234567, 7)));
    assert_eq!(parse_field(b"1234567890123456789"), Some(d(largest, 0)));
    assert_eq!(parse_field(b"-1e400"), Some(d(-largest, 0)));
}

#[test]
fn parse_field_reads_infinity_and_nan() {
    let largest = 999_999_999_999_999_999;
    assert_eq!(parse_field(b"inf"), Some(d(largest, 0)));
    assert_eq!(parse_field(b" -Infinity"), Some(d(-largest, 0)));
    assert_eq!(parse_field(b"+INF"), Some(d(largest, 0)));
    assert_eq!(parse_field(b"NaN"), Some(d(0, 0)));
}

#[test]
fn load_float_fields() {
    let t = load_csv(b"a,b
0.1234567891,1e-3
3.14159265358979,-2.5E1
").unwrap();
    assert_eq!(t.columns, vec![vec![d(123456789, 9), d(3141592653, 9)], vec![d(1, 3), d(-25, 0)]]);
    assert_eq!(t.skipped, 0);
}

#[test]
fn load_well_formed_table() {
    let t = load_csv(b"a,b,c\n1,2,3\n4,5,6\n7,8,9\n10, 11,12\n").unwrap();
    assert_eq!(t.columns.len(), 3);
    for col in &t.columns {
        assert_eq!(col.len(), 4);
    }
    assert_eq!(t.columns[0], vec![d(1, 0), d(4, 0), d(7, 0), d(10, 0)]);
    assert_eq!(t.columns[1], vec![d(2, 0), d(5, 0), d(8, 0), d(11, 0)]);
    assert_eq!(t.columns[2], vec![d(3, 0), d(6, 0), d(9, 0), d(12, 0)]);
    assert_eq!(t.skipped, 0);
}

#[test]
fn load_skips_row_with_other_field_count() {
    let t = load_csv(b"x,y\n1,2\n3,4\n5\n6,7\n").unwrap();
    assert_eq!(t.columns, vec![vec![d(1, 0), d(3, 0), d(6, 0)], vec![d(2, 0), d(4, 0), d(7, 0)]]);
    assert_eq!(t.skipped, 1);
}

#[test]
fn load_with_non_numeric_field_fails() {
    assert_eq!(load_csv(b"x,y\n1,2\n3,oops\n").err(), Some(LoadError::NotANumber));
}

#[test]
fn load_header_only_is_empty() {
    let t = load_csv(b"x,y\n").unwrap();
    assert_eq!(t.columns.len(), 0);
    assert_eq!(t.skipped, 0);
}

#[test]
fn non_numeric_field_in_skipped_row_is_harmless() {
    let t = load_csv(b"x,y\n1,2\nbad\n3,4\n").unwrap();
    assert_eq!(t.columns, vec![vec![d(1, 0), d(3, 0)], vec![d(2, 0), d(4, 0)]]);
    assert_eq!(t.skipped, 1);
}

#[test]
fn table_from_records_transposes() {
    let recs = vec![
        vec![b"1".to_vec(), b"2.5".to_vec()],
        vec![b"3".to_vec()],
        vec![b" -4".to_vec(), b"0".to_vec()],
    ];
    let t = table_from_records(&recs).unwrap();
    assert_eq!(t.columns, vec![vec![d(1, 0), d(-4, 0)], vec![d(25, 1), d(0, 0)]]);
    assert_eq!(t.skipped, 1);
}
