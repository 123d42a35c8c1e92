use bpm_chart::pipeline::{run_pipeline, ChartPoint, PipelineError};
use bpm_chart::record::ParseError;

fn series(points: &[ChartPoint]) -> Vec<(String, f64)> {
    points
        .iter()
        .map(|p| (String::from_utf8(p.label.clone()).unwrap(), p.num as f64 / p.den as f64))
        .collect()
}

#[test]
fn one_file_one_point() {
    let files = vec![b"2021-01-01T08:00:00+00:00,60\n2021-01-01T20:00:00+00:00,80".to_vec()];
    let points = run_pipeline(&files).unwrap();
    assert_eq!(series(&points), vec![("2021-01-01".to_string(), 70.0)]);
}

#[test]
fn two_files_sorted_whatever_the_enumeration_order() {
    let later = b"2021-01-02T08:00:00+00:00,60\n2021-01-02T20:00:00+00:00,70".to_vec();
    let earlier = b"2021-01-01T08:00:00+00:00,60\n2021-01-01T20:00:00+00:00,80".to_vec();
    let expected = vec![("2021-01-01".to_string(), 70.0), ("2021-01-02".to_string(), 65.0)];

    let points = run_pipeline(&vec![later.clone(), earlier.clone()]).unwrap();
    assert_eq!(series(&points), expected);
    let points = run_pipeline(&vec![earlier, later]).unwrap();
    assert_eq!(series(&points), expected);
}

#[test]
fn lines_without_year_prefix_are_silently_excluded() {
    let files = vec![
        b"1999-12-31T00:00:00+00:00,50\n2021-01-01T08:00:00+00:00,60\n2021-01-01T20:00:00+00:00,80"
            .to_vec(),
    ];
    let points = run_pipeline(&files).unwrap();
    assert_eq!(series(&points), vec![("2021-01-01".to_string(), 70.0)]);
}

#[test]
fn malformed_line_aborts_the_whole_run() {
    let good = b"2021-01-01T08:00:00+00:00,60".to_vec();
    let bad = b"2021-01-02T00:00:00+00:00,notanumber".to_vec();
    let r = run_pipeline(&vec![good, bad]);
    assert_eq!(r.unwrap_err(), PipelineError::Parse(ParseError::BadValue));
}

#[test]
fn file_day_is_the_first_samples_day() {
    // the per-file day comes from the first sample, whatever follows
    let files = vec![b"2021-01-01T23:00:00+00:00,60\n2021-01-02T01:00:00+00:00,80".to_vec()];
    let points = run_pipeline(&files).unwrap();
    assert_eq!(series(&points), vec![("2021-01-01".to_string(), 70.0)]);
}

#[test]
fn file_without_data_points_is_reported() {
    let files = vec![b"only a header\nno data here".to_vec()];
    assert_eq!(run_pipeline(&files).unwrap_err(), PipelineError::NoSamples);
}

#[test]
fn empty_input_yields_empty_series() {
    let points = run_pipeline(&Vec::new()).unwrap();
    assert!(points.is_empty());
}

#[test]
fn series_is_sorted_over_many_files() {
    let mut files = Vec::new();
    for day in [17u8, 3, 28, 9, 21, 1, 14] {
        let line = format!("2021-03-{:02}T06:00:00+00:00,{}", day, 50 + day);
        files.push(line.into_bytes());
    }
    let points = run_pipeline(&files).unwrap();
    let labels: Vec<String> =
        points.iter().map(|p| String::from_utf8(p.label.clone()).unwrap()).collect();
    let mut sorted_labels = labels.clone();
    sorted_labels.sort();
    assert_eq!(labels, sorted_labels);
    assert_eq!(points.len(), 7);
}

#[test]
fn rerunning_the_same_input_is_byte_identical() {
    let files = vec![
        b"2021-01-02T08:00:00+00:00,65".to_vec(),
        b"2021-01-01T08:00:00+00:00,60\n2021-01-01T20:00:00+00:00,80".to_vec(),
    ];
    let first = run_pipeline(&files).unwrap();
    let second = run_pipeline(&files).unwrap();
    assert_eq!(first.len(), second.len());
    for (a, b) in first.iter().zip(second.iter()) {
        assert_eq!(a.label, b.label);
        assert_eq!(a.num, b.num);
        assert_eq!(a.den, b.den);
        assert_eq!(a.day, b.day);
    }
}

#[test]
fn ties_between_files_both_survive() {
    let files = vec![
        b"2021-01-01T08:00:00+00:00,60".to_vec(),
        b"2021-01-01T09:00:00+00:00,90".to_vec(),
    ];
    let points = run_pipeline(&files).unwrap();
    assert_eq!(
        series(&points),
        vec![("2021-01-01".to_string(), 60.0), ("2021-01-01".to_string(), 90.0)]
    );
}
