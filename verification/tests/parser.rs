use bpm_chart::date::{format_date, Date};
use bpm_chart::loader::{is_data_line, load_samples};
use bpm_chart::record::{parse_record, ParseError};
use bpm_chart::value::parse_value;

#[test]
fn valid_line_parses() {
    let line = b"2021-01-01T08:00:00+00:00,60".to_vec();
    let s = parse_record(&line).unwrap();
    assert_eq!(s.date, Date { year: 2021, month: 1, day: 1 });
    assert_eq!(s.value.mantissa, 60);
    assert_eq!(s.value.scale, 0);
}

#[test]
fn extra_fields_are_ignored() {
    let line = b"2021-06-15T12:30:00+02:00,72.5,extra,fields".to_vec();
    let s = parse_record(&line).unwrap();
    assert_eq!(s.date, Date { year: 2021, month: 6, day: 15 });
    assert_eq!(s.value.mantissa, 725);
    assert_eq!(s.value.scale, 1);
}

#[test]
fn zulu_offset_parses() {
    let line = b"2021-01-01T00:00:00Z,55".to_vec();
    let s = parse_record(&line).unwrap();
    assert_eq!(s.date, Date { year: 2021, month: 1, day: 1 });
}

#[test]
fn date_is_read_in_own_offset() {
    let line = b"2021-01-01T23:30:00+02:00,60".to_vec();
    let s = parse_record(&line).unwrap();
    assert_eq!(s.date, Date { year: 2021, month: 1, day: 1 });
}

#[test]
fn missing_comma_is_missing_field() {
    let line = b"2021-01-01T08:00:00+00:00".to_vec();
    assert_eq!(parse_record(&line), Err(ParseError::MissingField));
}

#[test]
fn empty_line_is_missing_field() {
    let line = Vec::new();
    assert_eq!(parse_record(&line), Err(ParseError::MissingField));
}

#[test]
fn non_numeric_value_is_bad_value() {
    let line = b"2021-01-01T00:00:00+00:00,notanumber".to_vec();
    assert_eq!(parse_record(&line), Err(ParseError::BadValue));
}

#[test]
fn empty_value_is_bad_value() {
    let line = b"2021-01-01T00:00:00+00:00,".to_vec();
    assert_eq!(parse_record(&line), Err(ParseError::BadValue));
}

#[test]
fn offsetless_timestamp_is_bad_timestamp() {
    let line = b"2021-01-01T08:00:00,60".to_vec();
    assert_eq!(parse_record(&line), Err(ParseError::BadTimestamp));
}

#[test]
fn malformed_date_is_bad_timestamp() {
    let line = b"2021-13-01T00:00:00+00:00,60".to_vec();
    assert_eq!(parse_record(&line), Err(ParseError::BadTimestamp));
}

#[test]
fn bad_timestamp_reported_before_bad_value() {
    let line = b"nonsense,alsononsense".to_vec();
    assert_eq!(parse_record(&line), Err(ParseError::BadTimestamp));
}

#[test]
fn value_tokens_parse_exactly() {
    let v = parse_value(&b"60".to_vec()).unwrap();
    assert_eq!((v.mantissa, v.scale), (60, 0));
    let v = parse_value(&b"-3.25".to_vec()).unwrap();
    assert_eq!((v.mantissa, v.scale), (-325, 2));
    let v = parse_value(&b"+7.0".to_vec()).unwrap();
    assert_eq!((v.mantissa, v.scale), (70, 1));
    let v = parse_value(&b".5".to_vec()).unwrap();
    assert_eq!((v.mantissa, v.scale), (5, 1));
    let v = parse_value(&b"5.".to_vec()).unwrap();
    assert_eq!((v.mantissa, v.scale), (5, 0));
    let v = parse_value(&b"00012".to_vec()).unwrap();
    assert_eq!((v.mantissa, v.scale), (12, 0));
}

#[test]
fn bad_value_tokens_are_rejected() {
    assert!(parse_value(&b"".to_vec()).is_none());
    assert!(parse_value(&b"-".to_vec()).is_none());
    assert!(parse_value(&b".".to_vec()).is_none());
    assert!(parse_value(&b"1.2.3".to_vec()).is_none());
    assert!(parse_value(&b"1e3".to_vec()).is_none());
    assert!(parse_value(&b"12a".to_vec()).is_none());
    assert!(parse_value(&b" 60".to_vec()).is_none());
    // an eighteenth digit is past the exactness cap
    assert!(parse_value(&b"123456789012345678".to_vec()).is_none());
    assert!(parse_value(&b"12345678901234567".to_vec()).is_some());
}

#[test]
fn data_line_prefix_filter() {
    assert!(is_data_line(&b"2021-01-01T00:00:00+00:00,60".to_vec()));
    assert!(is_data_line(&b"20".to_vec()));
    assert!(!is_data_line(&b"1999-12-31T00:00:00+00:00,50".to_vec()));
    assert!(!is_data_line(&b"# comment".to_vec()));
    assert!(!is_data_line(&b"2".to_vec()));
    assert!(!is_data_line(&Vec::new()));
}

#[test]
fn date_labels_are_zero_padded() {
    let label = format_date(&Date { year: 2021, month: 1, day: 1 });
    assert_eq!(label, b"2021-01-01".to_vec());
    let label = format_date(&Date { year: 987, month: 12, day: 31 });
    assert_eq!(label, b"0987-12-31".to_vec());
}

#[test]
fn loader_keeps_data_lines_in_order() {
    let content = b"header line\n2021-01-01T08:00:00+00:00,60\n# note\n2021-01-01T20:00:00+00:00,80\n".to_vec();
    let samples = load_samples(&content).unwrap();
    assert_eq!(samples.len(), 2);
    assert_eq!(samples[0].value.mantissa, 60);
    assert_eq!(samples[1].value.mantissa, 80);
}

#[test]
fn loader_fails_on_first_bad_data_line() {
    let content = b"2021-01-01T08:00:00+00:00,60\n2021-01-01T09:00:00+00:00,oops\n".to_vec();
    assert_eq!(load_samples(&content), Err(ParseError::BadValue));
}

#[test]
fn loader_drops_lines_without_year_prefix() {
    let content = b"1999-12-31T00:00:00+00:00,50\n".to_vec();
    let samples = load_samples(&content).unwrap();
    assert_eq!(samples.len(), 0);
}
