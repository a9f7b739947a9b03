use kp_index::kp_data::{Entry, KpFile, ParseError};
use kp_index::time::DateTime;

const LINE: &str = r#"2022 07 31 18.0 19.50 33084.75000 33084.81250  2.000    7 1"#;

const FILE_ONE: &str = r#"
    # Foo bar
    2022 07 31 18.0 19.50 33084.75000 33084.81250  2.000    7 1
    2022 07 31 21.0 22.50 33084.87500 33084.93750  3.000   15 1
    2022 08 01 00.0 01.50 33085.00000 33085.06250  2.667   12 0
    2022 08 01 03.0 04.50 33085.12500 33085.18750  2.333    9 0
    2022 08 18 03.0 04.50 33102.12500 33102.18750  2.333    9 0
    2022 08 18 06.0 07.50 33102.25000 33102.31250  3.000   15 0
    2022 08 18 09.0 10.50 33102.37500 33102.43750 -1.000   -1 0
    2022 08 18 12.0 13.50 33102.50000 33102.56250 -1.000   -1 0
    "#;

const FILE_TWO: &str = r#"
    2022 07 31 18.0 19.50 33084.75000 33084.81250  2.000    7 1
    2022 07 31 21.0 22.50 33084.87500 33084.93750  3.000   15 1
    2022 08 01 00.0 01.50 33085.00000 33085.06250  2.667   12 0
    2022 08 01 03.0 04.50 33085.12500 33085.18750  2.333    9 0
    2022 08 18 00.0 01.50 33102.00000 33102.06250  2.667   12 0
    2022 08 18 03.0 04.50 33102.12500 33102.18750  2.333    9 0
    2022 08 18 06.0 07.50 33102.25000 33102.31250  3.333   18 0
    2022 08 18 09.0 10.50 33102.37500 33102.43750  2.667   12 0
    2022 08 18 12.0 13.50 33102.50000 33102.56250  5.000   48 0
    2022 08 27 12.0 13.50 33111.50000 33111.56250 -1.000   -1 0
    "#;

fn kp_of(e: &Entry) -> f64 {
    e.kp.mantissa as f64 / 10f64.powi(e.kp.scale as i32)
}

#[test]
fn test_parse_entry() {
    let entry = LINE.parse::<Entry>();
    let entry = entry.unwrap();

    let date = DateTime::new(2022, 7, 31, 19, 30, 0).unwrap();

    assert_eq!(kp_of(&entry), 2.0);
    assert_eq!(entry.ap, 7);
    assert_eq!(entry.d, 1);
    assert_eq!(entry.date, date);
}

#[test]
fn test_parse_entry_failure() {
    let entry = "Foobar".parse::<Entry>();
    assert!(entry.is_err());
}

#[test]
fn test_parse_file() {
    let kp_file = FILE_ONE.parse::<KpFile>().unwrap();

    assert_eq!(kp_file.entries.len(), 6);
    assert_eq!(kp_file.last_final_idx(), Some(1));

    let last = &kp_file.entries[kp_file.last_final_idx().unwrap()];
    assert_eq!(last.date.month, 7);
    assert_eq!(last.date.day, 31);
}

#[test]
fn test_get_new_entries() {
    let kp_empty = KpFile::new();
    let kp_ref = FILE_ONE.parse::<KpFile>().unwrap();
    let kp_up = FILE_TWO.parse::<KpFile>().unwrap();

    let new = kp_ref.get_new_entries(&kp_empty);
    assert_eq!(new.len(), 6);

    let new = kp_ref.get_new_entries(&kp_up);
    assert_eq!(new.len(), 0);

    let new = kp_up.get_new_entries(&kp_ref);
    assert_eq!(new.len(), 2);
    assert_eq!(new.first().unwrap().date, DateTime::new(2022, 8, 18, 10, 30, 0).unwrap());
}

#[test]
fn entry_example_fields() {
    let e = Entry::parse("2022 07 31 18.0 19.50 33084.75000 33084.81250 2.000 7 1").unwrap();
    assert_eq!(e.date, DateTime::new(2022, 7, 31, 19, 30, 0).unwrap());
    assert_eq!(kp_of(&e), 2.0);
    assert_eq!(e.ap, 7);
    assert_eq!(e.d, 1);
}

#[test]
fn short_line_is_structural_error() {
    assert_eq!(
        Entry::parse("2022 07 31 18.0 19.50 33084.75000 33084.81250 2.000 7"),
        Err(ParseError::Columns(9))
    );
    assert_eq!(Entry::parse("Foobar"), Err(ParseError::Columns(1)));
    assert_eq!(Entry::parse(""), Err(ParseError::Columns(0)));
    assert_eq!(
        Entry::parse("2022 07 31 18.0 19.50 1 2 2.000 7 1 extra"),
        Err(ParseError::Columns(11))
    );
}

#[test]
fn numeric_errors_name_the_column() {
    assert_eq!(
        Entry::parse("2022 07 31 18.0 x19 1 2 2.000 7 1"),
        Err(ParseError::ParseFloat(4))
    );
    assert_eq!(
        Entry::parse("20a2 07 31 18.0 19.50 1 2 2.000 7 1"),
        Err(ParseError::ParseInt(0))
    );
    assert_eq!(
        Entry::parse("2022 -7 31 18.0 19.50 1 2 2.000 7 1"),
        Err(ParseError::ParseInt(1))
    );
    assert_eq!(
        Entry::parse("2022 07 3.1 18.0 19.50 1 2 2.000 7 1"),
        Err(ParseError::ParseInt(2))
    );
    assert_eq!(
        Entry::parse("2022 07 31 18.0 19.50 1 2 2..0 7 1"),
        Err(ParseError::ParseFloat(7))
    );
    assert_eq!(
        Entry::parse("2022 07 31 18.0 19.50 1 2 2.000 300 1"),
        Err(ParseError::ParseInt(8))
    );
    assert_eq!(
        Entry::parse("2022 07 31 18.0 19.50 1 2 2.000 7 x"),
        Err(ParseError::ParseInt(9))
    );
}

#[test]
fn impossible_dates_are_rejected() {
    assert_eq!(
        Entry::parse("2022 02 30 18.0 19.50 1 2 2.000 7 1"),
        Err(ParseError::Date)
    );
    assert_eq!(
        Entry::parse("2022 07 31 18.0 24.50 1 2 2.000 7 1"),
        Err(ParseError::Date)
    );
    assert_eq!(
        Entry::parse("2022 07 31 18.0 -1.5 1 2 2.000 7 1"),
        Err(ParseError::Date)
    );
    assert!(Entry::parse("2024 02 29 18.0 19.50 1 2 2.000 7 1").is_ok());
    assert!(DateTime::new(2023, 2, 29, 0, 0, 0).is_none());
    assert!(DateTime::new(2022, 13, 1, 0, 0, 0).is_none());
    assert!(DateTime::new(2022, 1, 1, 0, 60, 0).is_none());
}

#[test]
fn fractional_hour_gives_minutes() {
    let e = Entry::parse("2022 07 31 18.0 1.75 1 2 0.333 0 0").unwrap();
    assert_eq!(e.date, DateTime::new(2022, 7, 31, 1, 45, 0).unwrap());
    let e = Entry::parse("2022 07 31 18.0 2.999 1 2 0.333 0 0").unwrap();
    assert_eq!(e.date, DateTime::new(2022, 7, 31, 2, 59, 0).unwrap());
}

#[test]
fn sentinel_rows_are_dropped() {
    let text = "2022 08 18 09.0 10.50 1 2 -1.000 -1 0\n\
                2022 08 18 12.0 13.50 1 2 2.000 7 1\n\
                2022 08 18 15.0 16.50 1 2 2.000 -1 1\n\
                2022 08 18 18.0 19.50 1 2 -0.5 3 1\n\
                2022 08 18 21.0 22.50 1 2 3.000 9 0\n";
    let f = KpFile::parse(text).unwrap();
    assert_eq!(f.entries.len(), 2);
    assert_eq!(f.entries[0].ap, 7);
    assert_eq!(f.entries[1].ap, 9);
    assert_eq!(f.last_final_idx(), Some(0));
}

#[test]
fn no_final_rows_means_no_index() {
    let f = KpFile::parse("# only a comment\n\n   \n2022 08 18 21.0 22.50 1 2 3.000 9 0\r\n").unwrap();
    assert_eq!(f.entries.len(), 1);
    assert_eq!(f.last_final_idx(), None);
    assert_eq!(KpFile::new().last_final_idx(), None);
}

#[test]
fn malformed_line_fails_whole_file() {
    let text = "2022 08 18 21.0 22.50 1 2 3.000 9 0\nbroken line\n";
    assert_eq!(KpFile::parse(text).unwrap_err(), ParseError::Columns(2));
}

#[test]
fn empty_current_snapshot_has_nothing_new() {
    let empty = KpFile::new();
    let other = FILE_ONE.parse::<KpFile>().unwrap();
    assert_eq!(empty.get_new_entries(&other).len(), 0);
    assert_eq!(empty.get_new_entries(&empty).len(), 0);
}

#[test]
fn identical_snapshot_has_nothing_new() {
    let a = FILE_TWO.parse::<KpFile>().unwrap();
    let b = FILE_TWO.parse::<KpFile>().unwrap();
    assert_eq!(a.get_new_entries(&b).len(), 0);
}

#[test]
fn newest_record_alone_can_be_new() {
    let old = KpFile::parse("2022 08 18 18.0 19.50 1 2 2.000 7 0\n").unwrap();
    let cur = KpFile::parse(
        "2022 08 18 18.0 19.50 1 2 2.000 7 0\n2022 08 18 21.0 22.50 1 2 3.000 9 0\n",
    )
    .unwrap();
    let new = cur.get_new_entries(&old);
    assert_eq!(new.len(), 1);
    assert_eq!(new[0].ap, 9);
}

#[test]
fn timestamp_matches_calendar() {
    let t = DateTime::new(1970, 1, 1, 0, 0, 0).unwrap();
    assert_eq!(t.timestamp(), 0);
    let t = DateTime::new(1969, 12, 31, 23, 59, 59).unwrap();
    assert_eq!(t.timestamp(), -1);
    let t = DateTime::new(2000, 3, 1, 0, 0, 0).unwrap();
    assert_eq!(t.timestamp(), 951868800);
}

#[test]
fn minus_zero_is_not_a_month_or_day() {
    assert_eq!(Entry::parse("1 -0 1 1 1 1 1 1 1 1"), Err(ParseError::ParseInt(1)));
    assert_eq!(Entry::parse("2022 07 -0 18.0 19.50 1 2 2.000 7 1"), Err(ParseError::ParseInt(2)));
    assert_eq!(Entry::parse("2022 +07 +31 18.0 19.50 1 2 2.000 7 1").unwrap().date.month, 7);
}

#[test]
fn unicode_whitespace_separates_columns() {
    let line = "2022\u{3000}07\u{a0}31 18.0\u{2028}19.50 1\u{85}2 2.000\u{205f}7 1";
    let e = Entry::parse(line).unwrap();
    assert_eq!(e.date, DateTime::new(2022, 7, 31, 19, 30, 0).unwrap());
    assert_eq!(Entry::parse("a\u{3000}b"), Err(ParseError::Columns(2)));
    let f = KpFile::parse("\u{a0}# comment\n\u{3000}2022 07 31 18.0 19.50 1 2 2.000 7 1\u{2003}\n").unwrap();
    assert_eq!(f.entries.len(), 1);
}

#[test]
fn zero_padded_integers_are_read() {
    let year = format!("{}2022", "0".repeat(37));
    let line = format!("{} 07 31 18.0 19.50 1 2 2.000 0000000000000000000000000000000000000007 1", year);
    let e = Entry::parse(&line).unwrap();
    assert_eq!(e.date.year, 2022);
    assert_eq!(e.ap, 7);
    let too_big = format!("{} 07 31 18.0 19.50 1 2 2.000 7 1", "9".repeat(40));
    assert_eq!(Entry::parse(&too_big), Err(ParseError::ParseInt(0)));
}
