use performance_measure::{MeasureError, Measurer, StopPolicy};

const MS: u64 = 1_000_000;
const SEC: u64 = 1_000_000_000;

fn series_with(name: &str, values: &[u64]) -> Measurer {
    let mut m = Measurer::new(None);
    m.add_measurement(name);
    for v in values {
        m.record_sample(name, *v, StopPolicy::Append).unwrap();
    }
    m
}

#[test]
fn work_series_slides_to_last_three() {
    let mut m = Measurer::new(None);
    m.add_measurement_with_capacity("work", 3);
    for v in [10 * MS, 20 * MS, 30 * MS, 40 * MS] {
        m.record_sample("work", v, StopPolicy::Slide).unwrap();
    }
    assert_eq!(m.get_samples_named("work").unwrap(), &vec![20 * MS, 30 * MS, 40 * MS]);
    assert_eq!(m.get_average_named("work"), Ok(30 * MS));
}

#[test]
fn slide_keeps_last_capacity_values() {
    let mut m = Measurer::new(Some(2));
    m.add_measurement("s");
    for v in 1..=5u64 {
        m.record_sample("s", v, StopPolicy::Slide).unwrap();
    }
    assert_eq!(m.get_samples_named("s").unwrap(), &vec![4, 5]);
}

#[test]
fn append_freezes_full_buffer() {
    let mut m = Measurer::new(Some(2));
    m.record_sample("default", 7, StopPolicy::Append).unwrap();
    m.record_sample("default", 8, StopPolicy::Append).unwrap();
    m.record_sample("default", 9, StopPolicy::Append).unwrap();
    m.record_sample("default", 10, StopPolicy::Append).unwrap();
    assert_eq!(m.get_samples(), &vec![7, 8]);
}

#[test]
fn mean_and_median() {
    let m = series_with("a", &[10 * MS, 20 * MS, 30 * MS]);
    assert_eq!(m.get_average_named("a"), Ok(20 * MS));
    assert_eq!(m.get_median_named("a"), Ok(20 * MS));
    let m = series_with("b", &[40 * MS, 10 * MS, 30 * MS, 20 * MS]);
    assert_eq!(m.get_median_named("b"), Ok(25 * MS));
    assert_eq!(m.get_average_named("b"), Ok(25 * MS));
}

#[test]
fn mean_keeps_sub_second_part() {
    let m = series_with("a", &[SEC, 2 * SEC + 500 * MS]);
    assert_eq!(m.get_average_named("a"), Ok(SEC + 750 * MS));
}

#[test]
fn mode_prefers_most_frequent_then_smallest() {
    let m = series_with("a", &[SEC, SEC, 2 * SEC]);
    assert_eq!(m.get_mode_named("a"), Ok(SEC));
    let m = series_with("b", &[2 * SEC, SEC, 2 * SEC, SEC]);
    for _ in 0..5 {
        assert_eq!(m.get_mode_named("b"), Ok(SEC));
    }
    let m = series_with("c", &[3, 9, 9, 1]);
    assert_eq!(m.get_mode_named("c"), Ok(9));
}

#[test]
fn min_and_max() {
    let m = series_with("a", &[5, 3, 8, 3]);
    assert_eq!(m.get_min_named("a"), Ok(3));
    assert_eq!(m.get_max_named("a"), Ok(8));
}

#[test]
fn constant_samples_have_no_spread() {
    let m = series_with("a", &[5 * SEC, 5 * SEC, 5 * SEC]);
    assert_eq!(m.get_variance_named("a"), Ok(0));
    assert_eq!(m.get_std_dev_named("a"), Ok(0));
}

#[test]
fn variance_and_std_dev_values() {
    let m = series_with("a", &[1, 2, 3, 4]);
    // mean 2 (rounded down); squared distances 1, 0, 1, 4
    assert_eq!(m.get_variance_named("a"), Ok(1));
    assert_eq!(m.get_std_dev_named("a"), Ok(1));
    let m = series_with("b", &[0, 20]);
    assert_eq!(m.get_variance_named("b"), Ok(100));
    assert_eq!(m.get_std_dev_named("b"), Ok(10));
    let m = series_with("c", &[0, 10 * MS]);
    assert_eq!(m.get_variance_named("c"), Ok(25_000_000_000_000));
    assert_eq!(m.get_std_dev_named("c"), Ok(5 * MS));
}

#[test]
fn variance_of_extreme_samples_fits() {
    let m = series_with("a", &[0, u64::MAX]);
    let half = (u64::MAX / 2) as u128;
    let d = (u64::MAX as u128) - half;
    assert_eq!(m.get_variance_named("a"), Ok((half * half + d * d) / 2));
}

#[test]
fn statistics_of_empty_series_fail() {
    let m = Measurer::new(None);
    assert_eq!(m.get_average(), Err(MeasureError::EmptySeries));
    assert_eq!(m.get_min(), Err(MeasureError::EmptySeries));
    assert_eq!(m.get_max(), Err(MeasureError::EmptySeries));
    assert_eq!(m.get_median(), Err(MeasureError::EmptySeries));
    assert_eq!(m.get_mode(), Err(MeasureError::EmptySeries));
    assert_eq!(m.get_variance(), Err(MeasureError::EmptySeries));
    assert_eq!(m.get_std_dev(), Err(MeasureError::EmptySeries));
}

#[test]
fn unknown_series_is_not_found() {
    let mut m = Measurer::new(None);
    assert_eq!(m.get_average_named("x"), Err(MeasureError::SeriesNotFound));
    assert_eq!(m.get_samples_named("x"), Err(MeasureError::SeriesNotFound));
    assert_eq!(m.start_measure_named("x"), Err(MeasureError::SeriesNotFound));
    assert_eq!(m.stop_measure_named("x"), Err(MeasureError::SeriesNotFound));
    assert_eq!(m.record_sample("x", 1, StopPolicy::Slide), Err(MeasureError::SeriesNotFound));
    assert_eq!(m.export_named("x"), Err(MeasureError::SeriesNotFound));
}

#[test]
fn stop_without_start_fails() {
    let mut m = Measurer::new(None);
    assert_eq!(m.stop_measure(), Err(MeasureError::TimerNotStarted));
    assert_eq!(m.stop_measure_replace_old(), Err(MeasureError::TimerNotStarted));
    m.add_measurement("a");
    assert_eq!(m.stop_measure_named("a"), Err(MeasureError::TimerNotStarted));
    assert!(m.get_samples_named("a").unwrap().is_empty());
}

#[test]
fn start_then_stop_records_one_sample() {
    let mut m = Measurer::new(None);
    m.start_measure();
    let e = m.stop_measure().unwrap();
    assert_eq!(m.get_samples(), &vec![e]);
    assert_eq!(m.stop_measure(), Err(MeasureError::TimerNotStarted));
    m.add_measurement("n");
    m.start_measure_named("n").unwrap();
    let e = m.stop_measure_replace_old_named("n").unwrap();
    assert_eq!(m.get_samples_named("n").unwrap(), &vec![e]);
}

#[test]
fn measure_closure_runs_given_iterations() {
    let mut m = Measurer::new(Some(10));
    let r = m.measure_closure(|| {}, 4, StopPolicy::Append).unwrap();
    assert_eq!(m.get_samples().len(), 4);
    assert_eq!(m.get_average(), Ok(r));
    m.add_measurement_with_capacity("w", 2);
    let r = m.measure_closure_named(|| {}, "w", 5, StopPolicy::Slide).unwrap();
    assert_eq!(m.get_samples_named("w").unwrap().len(), 2);
    assert_eq!(m.get_average_named("w"), Ok(r));
    assert_eq!(
        m.measure_closure_named(|| {}, "none", 1, StopPolicy::Slide),
        Err(MeasureError::SeriesNotFound)
    );
}

#[test]
fn add_measurement_replaces_existing() {
    let mut m = series_with("a", &[1, 2]);
    m.add_measurement("a");
    assert!(m.get_samples_named("a").unwrap().is_empty());
}

#[test]
fn update_max_samples_applies_to_new_series() {
    let mut m = Measurer::new(Some(5));
    m.update_max_samples(1);
    m.add_measurement("a");
    m.record_sample("a", 1, StopPolicy::Append).unwrap();
    m.record_sample("a", 2, StopPolicy::Append).unwrap();
    assert_eq!(m.get_samples_named("a").unwrap(), &vec![1]);
    for v in 0..7u64 {
        m.record_sample("default", v, StopPolicy::Append).unwrap();
    }
    assert_eq!(m.get_samples().len(), 5);
}

#[test]
fn export_writes_seconds_per_line() {
    let m = series_with("a", &[1_234_500, 12 * SEC + 5, 0]);
    let text = String::from_utf8(m.export_named("a").unwrap()).unwrap();
    assert_eq!(text, "0.001234500\n12.000000005\n0.000000000\n");
    assert_eq!(Measurer::new(None).export(), Vec::<u8>::new());
}

#[test]
fn export_round_trips() {
    let values = [10 * MS, 1, 987_654_321_012, u64::MAX];
    let m = series_with("a", &values);
    let text = String::from_utf8(m.export_named("a").unwrap()).unwrap();
    let parsed: Vec<f64> = text.lines().map(|l| l.parse::<f64>().unwrap()).collect();
    assert_eq!(parsed.len(), values.len());
    for (p, v) in parsed.iter().zip(values.iter()) {
        let secs = *v as f64 / 1e9;
        assert!((p - secs).abs() <= secs * 1e-12 + 1e-12);
    }
    let exact: Vec<u64> = text
        .lines()
        .map(|l| {
            let (s, f) = l.split_once('.').unwrap();
            s.parse::<u64>().unwrap() * SEC + f.parse::<u64>().unwrap()
        })
        .collect();
    assert_eq!(exact, values.to_vec());
}

#[test]
fn series_names_lists_each_once() {
    let mut m = Measurer::new(None);
    m.add_measurement("a");
    m.add_measurement("b");
    m.add_measurement("a");
    let mut names = m.series_names();
    names.sort();
    assert_eq!(names, vec!["a".to_string(), "b".to_string(), "default".to_string()]);
}
