use bpm_chart::aggregate::{mean_of, pow10_u64, summarize, AggError, DaySummary};
use bpm_chart::date::Date;
use bpm_chart::record::Sample;
use bpm_chart::sort::sort_by_day;
use bpm_chart::value::Value;

fn sample(day: u8, mantissa: i64, scale: u32) -> Sample {
    Sample { value: Value { mantissa, scale }, date: Date { year: 2021, month: 1, day } }
}

#[test]
fn date_comparison_is_chronological() {
    let a = Date { year: 2020, month: 12, day: 31 };
    let b = Date { year: 2021, month: 1, day: 1 };
    assert!(a.on_or_before(&b));
    assert!(!b.on_or_before(&a));
    assert!(a.on_or_before(&a));
}

#[test]
fn summarize_empty_is_reported() {
    assert_eq!(summarize(Vec::new()), Err(AggError::NoSamples));
}

#[test]
fn summarize_takes_first_sample_day() {
    let samples = vec![sample(3, 60, 0), sample(4, 80, 0)];
    let ds = summarize(samples).unwrap();
    assert_eq!(ds.day, Date { year: 2021, month: 1, day: 3 });
    assert_eq!(ds.samples.len(), 2);
}

#[test]
fn mean_is_exact() {
    let samples = vec![sample(1, 60, 0), sample(1, 80, 0)];
    let m = mean_of(&samples).unwrap();
    assert_eq!(m.num, 140);
    assert_eq!(m.den, 2);
    assert_eq!(m.num as f64 / m.den as f64, 70.0);
}

#[test]
fn mean_handles_mixed_scales() {
    // 60.5 and 59.5: common scale 1, sum 1200, denominator 2 * 10.
    let samples = vec![sample(1, 605, 1), sample(1, 595, 1)];
    let m = mean_of(&samples).unwrap();
    assert_eq!(m.num, 1200);
    assert_eq!(m.den, 20);
    assert_eq!(m.num as f64 / m.den as f64, 60.0);
    let samples = vec![sample(1, 60, 0), sample(1, 705, 1)];
    let m = mean_of(&samples).unwrap();
    assert_eq!(m.num, 600 + 705);
    assert_eq!(m.den, 20);
}

#[test]
fn mean_of_single_sample() {
    let samples = vec![sample(1, 725, 1)];
    let m = mean_of(&samples).unwrap();
    assert_eq!(m.num, 725);
    assert_eq!(m.den, 10);
    assert_eq!(m.num as f64 / m.den as f64, 72.5);
}

#[test]
fn mean_reports_overflow() {
    // One tiny value forces common scale 17; seventeen thousand maximal
    // mantissas then push the exact sum past the i128 range.
    let mut samples = vec![sample(1, 1, 17)];
    for _ in 0..17100 {
        samples.push(sample(1, 100_000_000_000_000_000, 0));
    }
    assert_eq!(mean_of(&samples), Err(AggError::Overflow));
}

#[test]
fn pow10_matches_literals() {
    assert_eq!(pow10_u64(0), 1);
    assert_eq!(pow10_u64(3), 1000);
    assert_eq!(pow10_u64(17), 100_000_000_000_000_000);
}

#[test]
fn sort_orders_by_day() {
    let mk = |day: u8| DaySummary {
        day: Date { year: 2021, month: 1, day },
        samples: vec![sample(day, 60, 0)],
    };
    let sorted = sort_by_day(vec![mk(3), mk(1), mk(2)]);
    let days: Vec<u8> = sorted.iter().map(|d| d.day.day).collect();
    assert_eq!(days, vec![1, 2, 3]);
}

#[test]
fn sort_is_stable_for_equal_days() {
    let mk = |day: u8, mantissa: i64| DaySummary {
        day: Date { year: 2021, month: 1, day },
        samples: vec![sample(day, mantissa, 0)],
    };
    let sorted = sort_by_day(vec![mk(2, 10), mk(1, 20), mk(2, 30)]);
    assert_eq!(sorted[0].samples[0].value.mantissa, 20);
    assert_eq!(sorted[1].samples[0].value.mantissa, 10);
    assert_eq!(sorted[2].samples[0].value.mantissa, 30);
}

#[test]
fn sort_crosses_month_and_year_bounds() {
    let mk = |year: u16, month: u8, day: u8| DaySummary {
        day: Date { year, month, day },
        samples: vec![sample(1, 60, 0)],
    };
    let sorted = sort_by_day(vec![mk(2021, 1, 2), mk(2020, 12, 31), mk(2021, 2, 1)]);
    assert_eq!(sorted[0].day, Date { year: 2020, month: 12, day: 31 });
    assert_eq!(sorted[1].day, Date { year: 2021, month: 1, day: 2 });
    assert_eq!(sorted[2].day, Date { year: 2021, month: 2, day: 1 });
}
