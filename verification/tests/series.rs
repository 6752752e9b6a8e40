use vertov::hparams::HparamValue;
use vertov::names::NameMap;
use vertov::numeric::{Moments, Numeric, Wording};
use vertov::predicate::Predicate;
use vertov::run::{Backend, Run, RunStatus, Stamp};
use vertov::series::{
    HistogramSeries, HistogramSnapshot, PointStamp, Points, Series, SeriesClass, SeriesSummary,
};
use vertov::shelf::Shelf;

fn number(text: &str) -> Option<u64> {
    text.parse::<f64>().ok().map(f64::to_bits)
}

fn seconds(millis: u64) -> u64 {
    (f64::from_bits(millis) / 1000.0).to_bits()
}

fn accumulate(moments: Moments, value: u64) -> Moments {
    let value = f64::from_bits(value);
    let count = moments.count + 1;
    let delta = value - f64::from_bits(moments.mean);
    let mean = f64::from_bits(moments.mean) + delta / count as f64;
    let m2 = f64::from_bits(moments.m2) + delta * (value - mean);
    Moments { count, mean: mean.to_bits(), m2: m2.to_bits() }
}

fn combine(left: Moments, right: Moments) -> Moments {
    let total = left.count + right.count;
    let delta = f64::from_bits(right.mean) - f64::from_bits(left.mean);
    let mean = f64::from_bits(left.mean) + delta * right.count as f64 / total as f64;
    let m2 = f64::from_bits(left.m2)
        + f64::from_bits(right.m2)
        + delta * delta * (left.count as f64 * right.count as f64) / total as f64;
    Moments { count: total, mean: mean.to_bits(), m2: m2.to_bits() }
}

fn mean(moments: &Moments) -> Option<f64> {
    moments.mean().map(f64::from_bits)
}

fn variance(moments: &Moments) -> Option<f64> {
    (moments.count() > 0)
        .then_some((f64::from_bits(moments.m2) / moments.count() as f64).max(0.0))
}

fn direct(values: &[f64]) -> (f64, f64) {
    let mean = values.iter().sum::<f64>() / values.len() as f64;
    let variance =
        values.iter().map(|v| (v - mean) * (v - mean)).sum::<f64>() / values.len() as f64;
    (mean, variance)
}

fn pushed(values: &[f64]) -> Moments {
    let numeric = Numeric { number, seconds, accumulate };
    let mut moments = Moments::default();
    for value in values {
        moments = numeric.accumulated(moments, value.to_bits());
    }
    moments
}

#[test]
fn matches_direct_computation() {
    let values = [1.5, -2.0, 0.25, 8.0, 3.5, -0.75];
    let moments = pushed(&values);
    let (expected_mean, expected_variance) = direct(&values);
    assert!((mean(&moments).unwrap() - expected_mean).abs() < 1e-12);
    assert!((variance(&moments).unwrap() - expected_variance).abs() < 1e-12);
    assert_eq!(moments.count(), 6);
}

#[test]
fn merge_equals_sequential() {
    let values = [3.0, 1.0, 4.0, 1.0, 5.0, 9.0, 2.0, 6.0];
    for split in 0..=values.len() {
        let mut left = pushed(&values[..split]);
        let right = pushed(&values[split..]);
        left.merge(&right, &combine);
        let sequential = pushed(&values);
        assert_eq!(left.count(), sequential.count());
        assert!((mean(&left).unwrap() - mean(&sequential).unwrap()).abs() < 1e-12);
        assert!((variance(&left).unwrap() - variance(&sequential).unwrap()).abs() < 1e-12);
    }
}

#[test]
fn counts_are_kept_apart_from_the_arithmetic() {
    let forgetful = |_: Moments, value: u64| Moments { count: 99, mean: value, m2: 0 };
    let numeric = Numeric { number, seconds, accumulate: forgetful };
    let two = numeric.accumulated(numeric.accumulated(Moments::default(), 1), 2);
    assert_eq!(two, Moments { count: 2, mean: 2, m2: 0 });
    let mut merged = two;
    merged.merge(&two, &|_: Moments, _: Moments| Moments { count: 0, mean: 5, m2: 6 });
    assert_eq!(merged, Moments { count: 4, mean: 5, m2: 6 });
}

#[test]
fn moments_count_the_finite_values() {
    let numeric = Numeric { number, seconds, accumulate };
    let mut summary = SeriesSummary::new();
    for (step, value) in [(0, 1.0), (1, f64::NAN), (2, 3.0), (1, f64::INFINITY), (2, 5.0)] {
        summary.observe(point(step, value), &numeric);
    }
    let counts: Vec<(u64, u64, u64)> = summary
        .segments
        .iter()
        .map(|segment| (segment.moments.count, segment.non_finite, segment.count))
        .collect();
    assert_eq!(counts, vec![(2, 1, 3), (1, 1, 2)]);
}

#[test]
fn empty_is_none() {
    let moments = Moments::default();
    assert_eq!(mean(&moments), None);
    assert_eq!(variance(&moments), None);
}

fn point(step: i64, value: f64) -> PointStamp {
    PointStamp {
        step,
        wall: (1000.0 + step as f64).to_bits(),
        value: value.to_bits(),
    }
}

fn bits(values: &[f64]) -> Vec<u64> {
    values.iter().map(|value| value.to_bits()).collect()
}

#[test]
fn summary_accumulates_exactly() {
    let numeric = Numeric { number, seconds, accumulate };
    let mut summary = SeriesSummary::new();
    for (step, value) in [(0, 4.0), (1, 2.0), (2, f64::NAN), (3, 8.0)] {
        assert!(!summary.observe(point(step, value), &numeric));
    }
    assert_eq!(summary.count(), 4);
    assert_eq!(summary.min(), Some(2.0f64.to_bits()));
    assert_eq!(summary.max(), Some(8.0f64.to_bits()));
    let moments = summary.moments(&combine);
    assert_eq!(moments.count(), 3);
    assert!((mean(&moments).unwrap() - 14.0 / 3.0).abs() < 1e-12);
    assert_eq!(summary.first().unwrap().step, 0);
    assert_eq!(summary.last().unwrap().step, 3);
    assert_eq!(summary.segments.len(), 1);
    assert!(!summary.preempted());
    assert_eq!(summary.segments[0].non_finite, 1);
}

#[test]
fn summary_preemption_opens_segment() {
    let numeric = Numeric { number, seconds, accumulate };
    let mut summary = SeriesSummary::new();
    for step in 0..5 {
        summary.observe(point(step, step as f64), &numeric);
    }
    assert!(summary.observe(point(3, 30.0), &numeric));
    assert!(!summary.observe(point(4, 40.0), &numeric));
    assert_eq!(summary.segments.len(), 2);
    assert_eq!(summary.segments[0].preempted_at, Some(3));
    assert!(summary.preempted());
    assert_eq!(summary.last().unwrap().value, 40.0f64.to_bits());
    assert_eq!(summary.count(), 7);
}

#[test]
fn equal_step_is_a_preemption() {
    let numeric = Numeric { number, seconds, accumulate };
    let mut summary = SeriesSummary::new();
    summary.observe(point(5, 1.0), &numeric);
    assert!(summary.observe(point(5, 2.0), &numeric));
    assert_eq!(summary.segments.len(), 2);
}

#[test]
fn points_preemption_truncates_into_ghost() {
    let mut points = Points::new();
    for step in 0..5 {
        points.push(point(step, step as f64));
    }
    points.push(point(3, 30.0));
    points.push(point(4, 40.0));

    assert_eq!(points.steps, vec![0, 1, 2, 3, 4]);
    assert_eq!(points.values, bits(&[0.0, 1.0, 2.0, 30.0, 40.0]));
    assert_eq!(points.boundaries, vec![3]);
    assert_eq!(points.ghosts.len(), 1);
    assert_eq!(points.ghosts[0].at, 3);
    assert_eq!(points.ghosts[0].steps, vec![3, 4]);
    assert_eq!(points.ghosts[0].values, bits(&[3.0, 4.0]));
}

#[test]
fn points_multiple_preemptions() {
    let mut points = Points::new();
    for step in [0, 1, 2, 1, 2, 3, 0, 1] {
        points.push(point(step, step as f64 * 10.0));
    }
    assert_eq!(points.steps, vec![0, 1]);
    assert_eq!(points.boundaries, vec![1, 0]);
    assert_eq!(points.ghosts.len(), 2);
    assert_eq!(points.ghosts[0].steps, vec![1, 2]);
    assert_eq!(points.ghosts[1].steps, vec![0, 1, 2, 3]);
}

#[test]
fn histograms_drop_what_a_restart_rewrites() {
    let mut series = HistogramSeries::new();
    for step in [0, 1, 2, 1] {
        series.push(HistogramSnapshot { step, wall: 0, buckets: Vec::new() });
    }
    let steps: Vec<i64> = series.snapshots.iter().map(|snapshot| snapshot.step).collect();
    assert_eq!(steps, vec![0, 1]);
    assert_eq!(series.boundaries, vec![1]);
}

fn test_run() -> Run {
    let numeric = Numeric { number, seconds, accumulate };
    let mut run = Run::new(Backend::Tfevents, String::new());
    run.hparams.insert("lr".to_owned(), HparamValue::F64(0.003f64.to_bits()));
    run.hparams.insert("optimizer".to_owned(), HparamValue::String("adam".to_owned()));
    run.hparams.insert("amsgrad".to_owned(), HparamValue::Bool(true));
    let mut summary = SeriesSummary::new();
    summary.observe(PointStamp { step: 10, wall: 0, value: 0.25f64.to_bits() }, &numeric);
    run.series.insert(
        "train/loss".to_owned(),
        Series { class: SeriesClass::Scalar, plugin: None, summary },
    );
    run
}

fn show(value: u64) -> String {
    f64::from_bits(value).to_string()
}

fn parse(input: &str) -> Result<Predicate, String> {
    Predicate::parse(input, &Wording { number, show })
}

fn check(input: &str) -> bool {
    parse(input)
        .ok()
        .unwrap()
        .matches("exp/adam-1", "active", &test_run(), &Wording { number, show })
}

#[test]
fn comparisons() {
    assert!(check("lr > 1e-3"));
    assert!(!check("lr > 0.01"));
    assert!(check("lr <= 0.003"));
    assert!(check("optimizer == adam"));
    assert!(check("optimizer != sgd"));
    assert!(check("amsgrad == true"));
    assert!(check("status == active"));
    assert!(check("run ~ adam"));
    assert!(check("name ~ 'exp/'"));
}

#[test]
fn metric_fields_by_tag_and_suffix() {
    assert!(check("train/loss < 0.5"));
    assert!(check("loss < 0.5"));
    assert!(!check("loss > 0.5"));
}

#[test]
fn boolean_combinators_and_precedence() {
    assert!(check("lr > 1e-3 and optimizer == adam"));
    assert!(check("lr > 1 or optimizer == adam"));
    assert!(!check("lr > 1 and optimizer == adam or optimizer == sgd"));
    assert!(check("not lr > 1"));
    assert!(check("(lr > 1 or lr < 0.01) and status == active"));
}

#[test]
fn missing_fields_never_match() {
    assert!(!check("nonexistent > 1"));
    assert!(!check("nonexistent == 1"));
    assert!(!check("nonexistent != 1"));
    assert!(check("not nonexistent == 1"));
}

#[test]
fn parse_errors_are_sentences() {
    assert!(parse("lr >").is_err());
    assert!(parse("lr = 3").is_err());
    assert!(parse("(lr > 1").is_err());
    assert!(parse("lr > 1 banana").is_err());
    assert!(parse("'unterminated").is_err());
}

#[test]
fn words_take_any_letter() {
    // Letters beyond ASCII belong to a word; other signs do not.
    assert!(!check("größe > 1"));
    assert!(parse("größe > 1").is_ok());
    assert!(parse("a € b").is_err());
}

#[test]
fn status_follows_the_last_write() {
    let window = Stamp { secs: 60, nanos: 0 };
    let now = Stamp { secs: 1000, nanos: 0 };
    let mut run = Run::new(Backend::Tfevents, String::new());
    assert_eq!(run.status(now, window), RunStatus::Unknown);
    run.last_write = Some(Stamp { secs: 990, nanos: 0 });
    assert_eq!(run.status(now, window), RunStatus::Active);
    run.last_write = Some(Stamp { secs: 10, nanos: 0 });
    assert_eq!(run.status(now, window), RunStatus::Idle);
    run.finished = Some(true);
    assert_eq!(run.status(now, window), RunStatus::Finished);
}

#[test]
fn token_counters_are_found_by_name() {
    let mut run = Run::new(Backend::Tfevents, String::new());
    assert_eq!(run.token_counter(None), None);
    run.series.insert(
        "perf/tokens".to_owned(),
        Series { class: SeriesClass::Scalar, plugin: None, summary: SeriesSummary::new() },
    );
    assert_eq!(run.token_counter(Some("tokens")), Some("perf/tokens".to_owned()));
    assert_eq!(run.token_counter(Some("absent")), None);
}

#[test]
fn names_stay_in_order() {
    let mut map: NameMap<u32> = NameMap::new();
    map.insert("b".to_owned(), 2);
    map.insert("a".to_owned(), 1);
    map.insert("b".to_owned(), 3);
    assert_eq!(map.len(), 2);
    assert_eq!((map.name_at(0).as_str(), *map.value_at(0)), ("a", 1));
    assert_eq!((map.name_at(1).as_str(), *map.value_at(1)), ("b", 3));
    assert_eq!(map.remove("a"), Some(1));
    assert_eq!(map.get("a"), None);
}

#[test]
fn full_shelves_drop_the_least_recent() {
    let mut shelf: Shelf<Points> = Shelf::new();
    shelf.insert("run".to_owned(), "a".to_owned(), Points::new(), 1, 2);
    shelf.insert("run".to_owned(), "b".to_owned(), Points::new(), 2, 2);
    let at = shelf.find("run", "a").unwrap();
    shelf.touch(at, 3);
    shelf.insert("run".to_owned(), "c".to_owned(), Points::new(), 4, 2);
    assert_eq!(shelf.len(), 2);
    assert!(shelf.find("run", "b").is_none());
    assert!(shelf.find("run", "a").is_some());
}
