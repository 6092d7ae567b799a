use timings::stats::Average;
use timings::wide::Wide;
use timings::MetricStats;

fn ratio(stats: &MetricStats, value: u64) -> f64 {
    let count = stats.average.count as f64;
    let average = stats.average.total as f64 / count;
    let spread = stats.stddev.spread.hi as f64 * 2f64.powi(128) + stats.stddev.spread.lo as f64;
    (value as f64 - average).abs() / (spread.sqrt() / count)
}

#[test]
fn statistics_of_a_few_measurements() {
    let stats = MetricStats::new(vec![2, 4, 4, 4, 5, 5, 7, 9]);
    assert_eq!(stats.average, Average { total: 40, count: 8 });
    assert_eq!(stats.min, 2);
    assert_eq!(stats.max, 9);
    // The variance is 4, times the square of 8.
    assert_eq!(stats.stddev.spread, Wide { hi: 0, lo: 256 });
    assert_eq!(stats.stddev.count, 8);
    assert_eq!(stats.plottable_stats, vec![2, 4, 4, 4, 5, 5, 7, 9]);
    assert_eq!(stats.outliers, Vec::<u64>::new());
    assert_eq!(stats.outlier_share(), Some((0, 8)));
}

#[test]
fn one_measurement_is_no_outlier() {
    let stats = MetricStats::new(vec![7]);
    assert_eq!(stats.average, Average { total: 7, count: 1 });
    assert_eq!((stats.min, stats.max), (7, 7));
    assert_eq!(stats.stddev.spread, Wide { hi: 0, lo: 0 });
    assert_eq!(stats.outliers, Vec::<u64>::new());
    assert_eq!(stats.outlier_share(), Some((0, 1)));
}

#[test]
fn no_measurements_have_no_share_of_outliers() {
    let stats = MetricStats::new(Vec::new());
    assert_eq!(stats.average, Average { total: 0, count: 0 });
    assert_eq!((stats.min, stats.max), (u64::MAX, 0));
    assert_eq!(stats.outlier_share(), None);
}

#[test]
fn equal_measurements_have_no_outlier() {
    let stats = MetricStats::new(vec![300; 100]);
    assert_eq!(stats.stddev.spread, Wide { hi: 0, lo: 0 });
    assert_eq!(stats.outliers, Vec::<u64>::new());
    assert_eq!(stats.plottable_stats.len(), 100);
}

#[test]
fn three_times_the_deviation_is_not_yet_an_outlier() {
    // The average is 110 and the standard deviation 30, so 200 is three times as far away.
    let mut nanos = vec![100; 9];
    nanos.push(200);
    let stats = MetricStats::new(nanos);
    assert_eq!(ratio(&stats, 200), 3.0);
    assert_eq!(stats.outliers, Vec::<u64>::new());
}

#[test]
fn more_than_three_times_the_deviation_is_an_outlier() {
    let mut nanos = vec![100; 5];
    nanos.push(200);
    nanos.extend(vec![100; 5]);
    let stats = MetricStats::new(nanos.clone());
    assert!(ratio(&stats, 200) > 3.0);
    assert_eq!(stats.outliers, vec![200]);
    // All measurements are listed, outliers or not.
    assert_eq!(stats.plottable_stats, nanos);
    assert_eq!(stats.outlier_share(), Some((1, 11)));
}

#[test]
fn small_values_can_be_outliers_too() {
    let mut nanos: Vec<u64> = (0..40).map(|i| 1_000 + i % 3).collect();
    nanos.insert(7, 1);
    nanos.push(3);
    let stats = MetricStats::new(nanos);
    assert_eq!(stats.outliers, vec![1, 3]);
    assert_eq!((stats.min, stats.max), (1, 1_002));
}

#[test]
fn large_measurements_are_not_rounded() {
    // All but one of the eleven measurements are zero: the ratio is the square root of ten.
    let mut nanos = vec![0; 10];
    nanos.push(u64::MAX);
    let stats = MetricStats::new(nanos);
    assert_eq!(stats.average, Average { total: u64::MAX, count: 11 });
    assert_eq!(stats.outliers, vec![u64::MAX]);
    // Eleven times the square, less the square.
    let product = Wide::product(u128::from(u64::MAX) * u128::from(u64::MAX), 10);
    assert_eq!(stats.stddev.spread, product);

    let mut nanos = vec![0; 9];
    nanos.push(u64::MAX);
    assert_eq!(MetricStats::new(nanos).outliers, Vec::<u64>::new());
}

#[test]
fn average_lies_between_minimum_and_maximum() {
    let stats = MetricStats::new(vec![3, 9, 4]);
    let average = stats.average.total as f64 / stats.average.count as f64;
    assert!(stats.min as f64 <= average && average <= stats.max as f64);
    assert_eq!(average, 16.0 / 3.0);
}

#[test]
fn wide_numbers_multiply_subtract_and_compare() {
    let max = Wide::product(u128::MAX, u128::MAX);
    assert_eq!(max, Wide { hi: u128::MAX - 1, lo: 1 });
    assert_eq!(max.minus(2), Wide { hi: u128::MAX - 2, lo: u128::MAX });
    assert_eq!(Wide { hi: 1, lo: u128::MAX }.times(9), Wide { hi: 17, lo: u128::MAX - 8 });
    assert!(Wide { hi: 1, lo: 0 }.exceeds(Wide { hi: 0, lo: u128::MAX }));
    assert!(Wide { hi: 1, lo: 2 }.exceeds(Wide { hi: 1, lo: 1 }));
    assert!(!Wide { hi: 1, lo: 1 }.exceeds(Wide { hi: 1, lo: 1 }));
}

#[test]
fn the_order_of_measurements_does_not_matter() {
    let forwards = MetricStats::new(vec![3, 8, 8, 1]);
    let backwards = MetricStats::new(vec![1, 8, 8, 3]);
    assert_eq!(forwards.average, backwards.average);
    assert_eq!((forwards.min, forwards.max), (1, 8));
    assert_eq!((backwards.min, backwards.max), (1, 8));
    assert_eq!(forwards.stddev.spread, backwards.stddev.spread);
    assert_eq!(forwards.stddev.spread.lo, 4 * 138 - 20 * 20);
    assert_eq!(forwards.outliers, backwards.outliers);
}
