use timings::channel::deliver;
use timings::collect::Collector;
use timings::{collect, stats_thread, CollectError, Label, Measurement};

fn measurement(label: &'static str, metric: u64, nanos: u128) -> Measurement<u64> {
    Measurement {
        label: Label::from(label),
        metric,
        nanos,
    }
}

#[test]
fn measurements_are_grouped_by_metric_and_label() {
    let summaries = collect(vec![
        measurement("b", 2, 10),
        measurement("a", 1, 20),
        measurement("a", 2, 30),
        measurement("b", 2, 40),
        measurement("b", 1, 50),
        measurement("a", 2, 60),
    ])
    .unwrap()
    .into_entries();
    assert_eq!(summaries.len(), 2);

    let (metric, summary) = &summaries[0];
    assert_eq!(*metric, 1);
    assert_eq!(summary.invocations, 1);
    assert_eq!(summary.labels.len(), 2);
    assert_eq!(summary.labels.key(0).to_string(), "a");
    assert_eq!(summary.labels.value(0).plottable_stats, vec![20]);
    assert_eq!(summary.labels.key(1).to_string(), "b");
    assert_eq!(summary.labels.value(1).plottable_stats, vec![50]);

    let (metric, summary) = &summaries[1];
    assert_eq!(*metric, 2);
    assert_eq!(summary.invocations, 2);
    assert_eq!(summary.labels.key(0).to_string(), "a");
    assert_eq!(summary.labels.value(0).plottable_stats, vec![30, 60]);
    assert_eq!(summary.labels.value(0).average.total, 90);
    assert_eq!(summary.labels.key(1).to_string(), "b");
    assert_eq!(summary.labels.value(1).plottable_stats, vec![10, 40]);
    assert_eq!(summary.labels.value(1).min, 10);
    assert_eq!(summary.labels.value(1).max, 40);
}

#[test]
fn every_measurement_is_listed_once() {
    let labels = ["x", "y", "z"];
    let mut measurements = Vec::new();
    for n in 0..300u64 {
        measurements.push(measurement(labels[(n % 3) as usize], n % 7, u128::from(n)));
    }
    let summaries = collect(measurements).unwrap().into_entries();
    let mut listed: Vec<u64> = Vec::new();
    for (metric, summary) in &summaries {
        for j in 0..summary.labels.len() {
            for &nanos in &summary.labels.value(j).plottable_stats {
                assert_eq!(nanos % 7, *metric);
                assert_eq!(labels[(nanos % 3) as usize], summary.labels.key(j).to_string());
                listed.push(nanos);
            }
        }
    }
    listed.sort();
    assert_eq!(listed, (0..300).collect::<Vec<u64>>());
    let metrics: Vec<u64> = summaries.iter().map(|(metric, _)| *metric).collect();
    assert_eq!(metrics, vec![0, 1, 2, 3, 4, 5, 6]);
}

#[test]
fn labels_with_the_same_text_are_one_label() {
    let summaries = collect(vec![
        measurement("a", 1, 5),
        Measurement {
            label: Label::from(String::from("a")),
            metric: 1,
            nanos: 6,
        },
    ])
    .unwrap()
    .into_entries();
    assert_eq!(summaries.len(), 1);
    let labels = &summaries[0].1.labels;
    assert_eq!(labels.len(), 1);
    assert!(matches!(labels.key(0), Label::Static("a")));
    assert_eq!(labels.value(0).plottable_stats, vec![5, 6]);
}

#[test]
fn labels_can_be_metrics() {
    let summaries = collect(vec![
        Measurement { label: Label::from("l"), metric: Label::from("write"), nanos: 1 },
        Measurement { label: Label::from("l"), metric: Label::from("read"), nanos: 2 },
    ])
    .unwrap();
    assert_eq!(summaries.key(0).to_string(), "read");
    assert_eq!(summaries.key(1).to_string(), "write");
    let found = summaries.get(&Label::from(String::from("write"))).unwrap();
    assert_eq!(found.labels.value(0).plottable_stats, vec![1]);
    assert!(summaries.get(&Label::from("seek")).is_none());
}

#[test]
fn invocations_are_those_of_the_first_label() {
    let summaries = collect(vec![
        measurement("b", 1, 1),
        measurement("b", 1, 1),
        measurement("b", 1, 1),
        measurement("a", 1, 1),
    ])
    .unwrap();
    assert_eq!(summaries.value(0).invocations, 1);

    let summaries = collect(vec![
        measurement("b", 1, 1),
        measurement("a", 1, 1),
        measurement("b", 1, 1),
        measurement("a", 1, 1),
    ])
    .unwrap();
    assert_eq!(summaries.value(0).invocations, 2);
}

#[test]
fn no_measurements_have_no_summaries() {
    assert_eq!(collect::<u64>(Vec::new()).unwrap().len(), 0);
}

#[test]
fn too_long_a_measurement_is_refused() {
    let longest = u128::from(u64::MAX);
    assert!(collect(vec![measurement("a", 1, longest)]).is_ok());
    let refused = collect(vec![measurement("a", 1, 1), measurement("a", 1, longest + 1)]);
    assert!(matches!(refused, Err(CollectError::TooLong)));
}

#[test]
fn too_long_a_total_is_refused() {
    let longest = u128::from(u64::MAX);
    let refused = collect(vec![measurement("a", 1, longest), measurement("a", 1, 1)]);
    assert!(matches!(refused, Err(CollectError::TotalTooLong)));
    // Other labels and other metrics have totals of their own.
    let fitting = collect(vec![
        measurement("a", 1, longest),
        measurement("b", 1, 1),
        measurement("a", 2, 1),
        measurement("a", 1, 0),
    ]);
    assert!(fitting.is_ok());
}

#[test]
fn a_refused_measurement_leaves_the_collector_as_it_was() {
    let mut collector = Collector::new();
    assert_eq!(collector.record(measurement("a", 1, 5)), Ok(()));
    assert_eq!(
        collector.record(measurement("a", 1, u128::from(u64::MAX))),
        Err(CollectError::TotalTooLong)
    );
    assert_eq!(
        collector.record(measurement("c", 3, u128::MAX)),
        Err(CollectError::TooLong)
    );
    assert_eq!(collector.record(measurement("a", 1, 6)), Ok(()));
    let summaries = collector.summarize();
    assert_eq!(summaries.len(), 1);
    assert_eq!(summaries.value(0).labels.value(0).plottable_stats, vec![5, 6]);
}

#[test]
fn measurements_are_collected_from_a_channel() {
    let (sender, receiver) = timings::channel::open();
    for n in 0..10 {
        assert!(deliver(&sender, measurement("label", n % 2, u128::from(n))).is_ok());
    }
    drop(sender);
    let summaries = stats_thread(&receiver).0.unwrap();
    assert_eq!(summaries.len(), 2);
    assert_eq!(
        summaries.value(0).labels.value(0).plottable_stats,
        vec![0, 2, 4, 6, 8]
    );
    assert_eq!(
        summaries.value(1).labels.value(0).plottable_stats,
        vec![1, 3, 5, 7, 9]
    );
}

#[test]
fn how_measurements_interleave_does_not_matter() {
    let one = collect(vec![
        measurement("a", 1, 5),
        measurement("a", 1, 9),
        measurement("b", 1, 2),
        measurement("a", 7, 4),
    ])
    .unwrap();
    let other = collect(vec![
        measurement("a", 7, 4),
        measurement("b", 1, 2),
        measurement("a", 1, 5),
        measurement("a", 1, 9),
    ])
    .unwrap();
    assert_eq!((one.len(), other.len()), (2, 2));
    for i in 0..2 {
        assert_eq!(one.key(i), other.key(i));
        let (x, y) = (one.value(i), other.value(i));
        assert_eq!(x.invocations, y.invocations);
        assert_eq!(x.labels.len(), y.labels.len());
        for j in 0..x.labels.len() {
            assert!(x.labels.key(j) == y.labels.key(j));
            let (a, b) = (x.labels.value(j), y.labels.value(j));
            assert_eq!(a.plottable_stats, b.plottable_stats);
            assert_eq!((a.average, a.min, a.max), (b.average, b.min, b.max));
        }
    }
    assert_eq!(one.value(0).labels.value(0).plottable_stats, vec![5, 9]);
    assert_eq!(one.value(0).invocations, 2);
}
