//! Gathering of measurements by metric and label, and their summaries.
use vstd::prelude::*;

use crate::channel::receive;
use crate::ends::Received;
use crate::label::{lemma_labels_are_totally_ordered, Label};
use crate::order::{equivalent, precedes, total_order};
use crate::sorted::{increasing, SortedMap};
use crate::stats::{sum, MetricStats};

verus! {

/// A finished measurement: how many nanoseconds `metric` took for `label`.
pub struct Measurement<Metric> {
    /// What the measurement was taken for.
    pub label: Label,
    /// What was measured.
    pub metric: Metric,
    /// The nanoseconds elapsed.
    pub nanos: u128,
}

/// A summary of statistics gathered for a single metric across one or more [`Label`]s.
pub struct MetricSummary {
    /// The number of invocations each label observed. Where the labels observed different
    /// numbers, it is that of the first label.
    pub invocations: usize,
    /// The [`MetricStats`] for each label.
    pub labels: SortedMap<Label, MetricStats>,
}

/// A collection of [`MetricSummary`] ordered by `Metric`.
pub type MetricSummaries<Metric> = SortedMap<Metric, MetricSummary>;

/// Why a measurement could not be taken up.
#[derive(Clone, Copy, PartialEq, Eq, Structural, Debug)]
pub enum CollectError {
    /// The measurement is longer than 64 bits of nanoseconds.
    TooLong,
    /// The measurements of one label for one metric sum up to more than 64 bits of nanoseconds.
    TotalTooLong,
}

/// A measurement that was taken up: its label, its metric and its nanoseconds.
pub type Taken<Metric> = (Label, Metric, u64);

/// `m` was taken for the metric and the label given.
pub open spec fn belongs<Metric: PartialOrd>(m: Taken<Metric>, metric: Metric, label: Label) -> bool {
    equivalent(m.1, metric) && m.0@ == label@
}

/// The nanoseconds of the measurements among `taken` that belong to `metric` and `label`, in the
/// order in which they were taken.
pub open spec fn nanos_for<Metric: PartialOrd>(
    taken: Seq<Taken<Metric>>,
    metric: Metric,
    label: Label,
) -> Seq<u64>
    decreases taken.len(),
{
    if taken.len() == 0 {
        Seq::empty()
    } else {
        let earlier = nanos_for(taken.drop_last(), metric, label);
        if belongs(taken.last(), metric, label) {
            earlier.push(taken.last().2)
        } else {
            earlier
        }
    }
}

/// Metrics, each with labels: the keys of what is gathered.
pub type Keys<Metric> = Seq<(Metric, Seq<Label>)>;

/// Somewhere in `keys` stand `metric` and, under it, `label`.
#[verifier::opaque]
pub open spec fn has_key<Metric: PartialOrd>(keys: Keys<Metric>, metric: Metric, label: Label) -> bool {
    exists|i: int, j: int| #[trigger] key_at(keys, i, j, metric, label)
}

/// At place `i` of `keys` stands `metric` and, at place `j` under it, `label`.
pub open spec fn key_at<Metric: PartialOrd>(
    keys: Keys<Metric>,
    i: int,
    j: int,
    metric: Metric,
    label: Label,
) -> bool {
    &&& 0 <= i < keys.len()
    &&& 0 <= j < keys[i].1.len()
    &&& equivalent(metric, keys[i].0)
    &&& label@ == keys[i].1[j]@
}

/// The metrics of `keys` are in increasing order, each has a label, and the labels of each are in
/// increasing order.
pub open spec fn keys_in_order<Metric: PartialOrd>(keys: Keys<Metric>) -> bool {
    &&& forall|i: int, j: int| 0 <= i < j < keys.len() ==> #[trigger] precedes(keys[i].0, keys[j].0)
    &&& forall|i: int| 0 <= i < keys.len() ==> (#[trigger] keys[i]).1.len() > 0
    &&& forall|i: int, j: int, k: int|
        0 <= i < keys.len() && 0 <= j < k < keys[i].1.len() ==> #[trigger] precedes(
            keys[i].1[j],
            keys[i].1[k],
        )
}

/// `metric` is the first of the metrics equivalent to it among `taken`.
#[verifier::opaque]
pub open spec fn is_first_metric<Metric: PartialOrd>(taken: Seq<Taken<Metric>>, metric: Metric) -> bool {
    exists|n: int| #[trigger] first_metric_at(taken, metric, n)
}

/// `metric` is what measurement `n` was taken for, and the first of its kind.
pub open spec fn first_metric_at<Metric: PartialOrd>(taken: Seq<Taken<Metric>>, metric: Metric, n: int) -> bool {
    &&& 0 <= n < taken.len()
    &&& taken[n].1 == metric
    &&& forall|m: int| 0 <= m < n ==> !equivalent((#[trigger] taken[m]).1, metric)
}

/// `label` is the first of the labels equal to it that `metric` was measured for.
#[verifier::opaque]
pub open spec fn is_first_label<Metric: PartialOrd>(
    taken: Seq<Taken<Metric>>,
    metric: Metric,
    label: Label,
) -> bool {
    exists|n: int| #[trigger] first_label_at(taken, metric, label, n)
}

/// `label` is what measurement `n` of `metric` was taken for, and the first of its kind.
pub open spec fn first_label_at<Metric: PartialOrd>(
    taken: Seq<Taken<Metric>>,
    metric: Metric,
    label: Label,
    n: int,
) -> bool {
    &&& 0 <= n < taken.len()
    &&& taken[n].0 == label
    &&& belongs(taken[n], metric, label)
    &&& forall|m: int| 0 <= m < n ==> !belongs(#[trigger] taken[m], metric, label)
}

/// `keys` are the metrics and labels of the measurements `taken`: in order, each of them of the
/// first measurement that brought it, and none missing.
pub open spec fn are_keys_of<Metric: PartialOrd>(keys: Keys<Metric>, taken: Seq<Taken<Metric>>) -> bool {
    &&& keys_in_order(keys)
    &&& forall|i: int| 0 <= i < keys.len() ==> is_first_metric(taken, (#[trigger] keys[i]).0)
    &&& forall|i: int, j: int|
        0 <= i < keys.len() && 0 <= j < keys[i].1.len() ==> is_first_label(
            taken,
            keys[i].0,
            #[trigger] keys[i].1[j],
        )
    &&& forall|n: int|
        0 <= n < taken.len() ==> has_key(keys, (#[trigger] taken[n]).1, taken[n].0)
}

/// The measurements of one label for one metric.
struct Samples {
    nanos: Vec<u64>,
    total: u64,
}

impl Samples {
    /// The measurements are `nanos`.
    spec fn holds(self, nanos: Seq<u64>) -> bool {
        self.nanos@ == nanos && self.total == sum(nanos)
    }

    /// The measurements are one.
    fn of(nanos: u64) -> (samples: Self)
        ensures
            samples.holds(seq![nanos]),
    {
        let samples: Samples = Samples { nanos: vec![nanos], total: nanos };
        proof {
            assert(samples.nanos@ =~= seq![nanos]);
            assert(seq![nanos].drop_last() =~= Seq::<u64>::empty());
            reveal_with_fuel(sum, 2);
        }
        samples
    }
}

/// Gathers measurements by metric and label.
pub struct Collector<Metric> {
    metrics: SortedMap<Metric, SortedMap<Label, Samples>>,
    taken: Ghost<Seq<Taken<Metric>>>,
}

impl<Metric> View for Collector<Metric> {
    type V = Seq<Taken<Metric>>;

    /// The measurements that were taken up, in their order.
    closed spec fn view(&self) -> Seq<Taken<Metric>> {
        self.taken@
    }
}

/// The metrics and labels of what was gathered.
spec fn collected_keys<Metric>(entries: Seq<(Metric, SortedMap<Label, Samples>)>) -> Keys<Metric> {
    entries.map_values(|e: (Metric, SortedMap<Label, Samples>)| (e.0, label_keys(e.1@)))
}

/// The entries hold the measurements `taken`, each under its metric and label.
spec fn gathers<Metric: PartialOrd>(
    entries: Seq<(Metric, SortedMap<Label, Samples>)>,
    taken: Seq<Taken<Metric>>,
) -> bool {
    &&& are_keys_of(collected_keys(entries), taken)
    &&& forall|i: int, j: int|
        0 <= i < entries.len() && 0 <= j < entries[i].1@.len() ==> (
        #[trigger] entries[i].1@[j]).1.holds(nanos_for(taken, entries[i].0, entries[i].1@[j].0))
}

/// The keys among the entries of a map.
pub open spec fn label_keys<V>(entries: Seq<(Label, V)>) -> Seq<Label> {
    entries.map_values(|e: (Label, V)| e.0)
}

impl<Metric: PartialOrd> Collector<Metric> {
    /// The measurements are where their metric and label say, and their sums fit 64 bits.
    pub closed spec fn well_formed(self) -> bool {
        gathers(self.metrics@, self@)
    }

    /// A collector that has taken up nothing.
    pub fn new() -> (collector: Self)
        ensures
            collector.well_formed(),
            collector@ == Seq::<Taken<Metric>>::empty(),
    {
        Collector { metrics: SortedMap::new(), taken: Ghost(Seq::empty()) }
    }

    /// Takes up a measurement, unless it is too long.
    pub fn record(&mut self, measurement: Measurement<Metric>) -> (r: Result<(), CollectError>)
        requires
            total_order::<Metric>(),
            old(self).well_formed(),
        ensures
            final(self).well_formed(),
            r == record_result(old(self)@, measurement),
            final(self)@ == (if r is Ok {
                old(self)@.push((measurement.label, measurement.metric, measurement.nanos as u64))
            } else {
                old(self)@
            }),
    {
        let Measurement { label, metric, nanos } = measurement;
        if nanos > u64::MAX as u128 {
            return Err(CollectError::TooLong);
        }
        let nanos: u64 = nanos as u64;
        let ghost taken = self@;
        let ghost entries = self.metrics@;
        let ghost keys = collected_keys(entries);
        let ghost new = (label, metric, nanos);
        proof {
            lemma_labels_are_totally_ordered();
            lemma_collected_keys_in_order(entries);
        }
        let (i, metric_known) = self.metrics.position(&metric);
        if metric_known {
            let (j, label_known) = self.metrics.value(i).position(&label);
            if label_known {
                proof {
                    let known = entries[i as int].1@[j as int];
                    assert(known.1.holds(nanos_for(taken, entries[i as int].0, known.0)));
                    lemma_nanos_of_equivalent(taken, entries[i as int].0, known.0, metric, label);
                }
                if nanos > u64::MAX - self.metrics.value(i).value(j).total {
                    return Err(CollectError::TotalTooLong);
                }
                let samples: &mut Samples = self.metrics.value_mut(i).value_mut(j);
                let ghost before = samples.nanos@;
                samples.nanos.push(nanos);
                samples.total += nanos;
                proof {
                    assert(samples.nanos@.drop_last() =~= before);
                    lemma_gathers_more(entries, self.metrics@, taken, new, i as int, j as int);
                }
            } else {
                self.metrics.value_mut(i).insert_at(j, label, Samples::of(nanos));
                proof {
                    lemma_gathers_new_label(entries, self.metrics@, taken, new, i as int, j as int);
                    lemma_nanos_of_equivalent(taken, entries[i as int].0, label, metric, label);
                }
            }
        } else {
            let mut labels: SortedMap<Label, Samples> = SortedMap::new();
            labels.push(label, Samples::of(nanos));
            self.metrics.insert_at(i, metric, labels);
            proof {
                lemma_gathers_new_metric(entries, self.metrics@, taken, new, i as int);
            }
        }
        self.taken = Ghost(taken.push(new));
        Ok(())
    }

    /// Summarizes the measurements that were taken up.
    pub fn summarize(self) -> (summaries: MetricSummaries<Metric>)
        requires
            self.well_formed(),
        ensures
            summarizes(summaries@, self@),
    {
        let ghost entries = self.metrics@;
        let ghost taken = self@;
        let mut summaries: MetricSummaries<Metric> = SortedMap::new();
        for entry in iter: self.metrics.into_entries()
            invariant
                iter.seq() == entries,
                gathers(entries, taken),
                summaries@.len() == iter.index(),
                forall|i: int|
                    0 <= i < summaries@.len() ==> (#[trigger] summaries@[i]).0 == entries[i].0
                        && label_keys(summaries@[i].1.labels@) == label_keys(entries[i].1@),
                forall|i: int|
                    0 <= i < summaries@.len() ==> (#[trigger] summaries@[i]).1.summarizes(
                        taken,
                        summaries@[i].0,
                    ),
        {
            let ghost i = iter.index();
            let (metric, labels) = entry;
            assert((metric, labels) == entries[i]);
            assert(collected_keys(entries)[i].1.len() > 0);
            let ghost samples = labels@;
            assert forall|j: int| 0 <= j < samples.len() implies (#[trigger] samples[j]).1.holds(
                nanos_for(taken, metric, samples[j].0),
            ) by {
                assert(entries[i].1@[j].1.holds(nanos_for(taken, entries[i].0, entries[i].1@[j].0)));
            }
            let summary: MetricSummary = summarize_metric(labels, Ghost(taken), Ghost(metric));
            summaries.push(metric, summary);
        }
        assert(summary_keys(summaries@) =~= collected_keys(entries));
        summaries
    }
}

/// The metrics and labels of summaries.
pub open spec fn summary_keys<Metric>(summaries: Seq<(Metric, MetricSummary)>) -> Keys<Metric> {
    summaries.map_values(|e: (Metric, MetricSummary)| (e.0, label_keys(e.1.labels@)))
}

/// The summaries are those of the measurements `taken`: under each metric and label that was
/// measured stand the statistics of the measurements that belong there.
pub open spec fn summarizes<Metric: PartialOrd>(
    summaries: Seq<(Metric, MetricSummary)>,
    taken: Seq<Taken<Metric>>,
) -> bool {
    &&& are_keys_of(summary_keys(summaries), taken)
    &&& forall|i: int|
        0 <= i < summaries.len() ==> (#[trigger] summaries[i]).1.summarizes(taken, summaries[i].0)
}

impl MetricSummary {
    /// This is the summary of what was `taken` for `metric`.
    pub open spec fn summarizes<Metric: PartialOrd>(
        self,
        taken: Seq<Taken<Metric>>,
        metric: Metric,
    ) -> bool {
        &&& self.invocations == nanos_for(taken, metric, self.labels@[0].0).len()
        &&& forall|j: int|
            0 <= j < self.labels@.len() ==> (#[trigger] self.labels@[j]).1.describes(
                nanos_for(taken, metric, self.labels@[j].0),
            )
    }
}

/// The measurements as they are taken up.
pub open spec fn as_taken<Metric>(measurements: Seq<Measurement<Metric>>) -> Seq<Taken<Metric>> {
    measurements.map_values(|m: Measurement<Metric>| (m.label, m.metric, m.nanos as u64))
}

/// What becomes of measurement `n` when the ones before it were taken up.
pub open spec fn result_at<Metric: PartialOrd>(
    measurements: Seq<Measurement<Metric>>,
    n: int,
) -> Result<(), CollectError> {
    record_result(as_taken(measurements.take(n)), measurements[n])
}

/// `outcome` is the result of collecting `measurements`: the summaries, if all of them can be
/// taken up, and else the reason why the first that cannot is refused.
pub open spec fn collects<Metric: PartialOrd>(
    measurements: Seq<Measurement<Metric>>,
    outcome: Result<MetricSummaries<Metric>, CollectError>,
) -> bool {
    match outcome {
        Ok(summaries) => {
            &&& forall|n: int| 0 <= n < measurements.len() ==> #[trigger] result_at(measurements, n) is Ok
            &&& summarizes(summaries@, as_taken(measurements))
        },
        Err(error) => exists|n: int|
            {
                &&& 0 <= n < measurements.len()
                &&& #[trigger] result_at(measurements, n) == Err::<(), CollectError>(error)
                &&& forall|m: int| 0 <= m < n ==> #[trigger] result_at(measurements, m) is Ok
            },
    }
}

/// Collects measurements and summarizes them.
pub fn collect<Metric: PartialOrd>(measurements: Vec<Measurement<Metric>>) -> (outcome: Result<
    MetricSummaries<Metric>,
    CollectError,
>)
    requires
        total_order::<Metric>(),
    ensures
        collects(measurements@, outcome),
{
    let ghost all = measurements@;
    let mut collector: Collector<Metric> = Collector::new();
    assert(as_taken(all.take(0)) =~= Seq::<Taken<Metric>>::empty());
    for measurement in iter: measurements
        invariant
            iter.seq() == all,
            total_order::<Metric>(),
            collector.well_formed(),
            collector@ == as_taken(all.take(iter.index())),
            forall|n: int| 0 <= n < iter.index() ==> #[trigger] result_at(all, n) is Ok,
    {
        let ghost n = iter.index();
        assert(measurement == all[n]);
        let ghost before = collector@;
        let r: Result<(), CollectError> = collector.record(measurement);
        assert(r == result_at(all, n));
        if let Err(error) = r {
            return Err(error);
        }
        assert(as_taken(all.take(n + 1)) =~= before.push((all[n].label, all[n].metric, all[n].nanos as u64)));
    }
    assert(all.take(all.len() as int) =~= all);
    Ok(collector.summarize())
}

/// Waits for all measurements to arrive and returns an organized summary of them, with the receipt
/// for what arrived.
///
/// It returns when every sender of the channel is gone.
pub fn stats_thread<Metric: PartialOrd>(metric_receiver: &flume::Receiver<Measurement<Metric>>) -> (r: (
    Result<MetricSummaries<Metric>, CollectError>,
    Received<Metric>,
))
    requires
        total_order::<Metric>(),
    ensures
        r.1.source() == *metric_receiver,
        collects(r.1.measurements(), r.0),
{
    let (measurements, received) = receive(metric_receiver);
    (collect(measurements), received)
}

/// Summarizes what was gathered for one metric.
fn summarize_metric<Metric: PartialOrd>(
    labels: SortedMap<Label, Samples>,
    Ghost(taken): Ghost<Seq<Taken<Metric>>>,
    Ghost(metric): Ghost<Metric>,
) -> (summary: MetricSummary)
    requires
        labels@.len() > 0,
        forall|j: int|
            0 <= j < labels@.len() ==> (#[trigger] labels@[j]).1.holds(
                nanos_for(taken, metric, labels@[j].0),
            ),
    ensures
        label_keys(summary.labels@) == label_keys(labels@),
        summary.summarizes(taken, metric),
{
    let ghost samples = labels@;
    let invocations: usize = labels.value(0).nanos.len();
    let mut stats: SortedMap<Label, MetricStats> = SortedMap::new();
    assert(samples[0].1.holds(nanos_for(taken, metric, samples[0].0)));
    for entry in iter: labels.into_entries()
        invariant
            iter.seq() == samples,
            forall|j: int|
                0 <= j < samples.len() ==> (#[trigger] samples[j]).1.holds(
                    nanos_for(taken, metric, samples[j].0),
                ),
            stats@.len() == iter.index(),
            forall|j: int|
                0 <= j < stats@.len() ==> (#[trigger] stats@[j]).0 == samples[j].0
                    && stats@[j].1.describes(nanos_for(taken, metric, samples[j].0)),
    {
        let (label, gathered) = entry;
        assert((label, gathered) == samples[iter.index()]);
        stats.push(label, MetricStats::new(gathered.nanos));
    }
    assert(label_keys(stats@) =~= label_keys(samples));
    MetricSummary { invocations, labels: stats }
}

/// What becomes of a measurement handed to a collector that has taken up `taken`.
pub open spec fn record_result<Metric: PartialOrd>(
    taken: Seq<Taken<Metric>>,
    measurement: Measurement<Metric>,
) -> Result<(), CollectError> {
    if measurement.nanos > u64::MAX {
        Err(CollectError::TooLong)
    } else if sum(nanos_for(taken, measurement.metric, measurement.label)) + measurement.nanos
        > u64::MAX {
        Err(CollectError::TotalTooLong)
    } else {
        Ok(())
    }
}

/// What well-formedness says of the keys, said of the entries.
proof fn lemma_collected_keys_in_order<Metric: PartialOrd>(
    entries: Seq<(Metric, SortedMap<Label, Samples>)>,
)
    requires
        keys_in_order(collected_keys(entries)),
    ensures
        increasing(entries),
        forall|i: int| 0 <= i < entries.len() ==> increasing((#[trigger] entries[i]).1@),
{
    let keys = collected_keys(entries);
    assert forall|i: int, j: int| 0 <= i < j < entries.len() implies #[trigger] precedes(
        entries[i].0,
        entries[j].0,
    ) by {
        assert(precedes(keys[i].0, keys[j].0));
    }
    assert forall|i: int| 0 <= i < entries.len() implies increasing((#[trigger] entries[i]).1@) by {
        assert forall|j: int, k: int| 0 <= j < k < entries[i].1@.len() implies #[trigger] precedes(
            entries[i].1@[j].0,
            entries[i].1@[k].0,
        ) by {
            assert(precedes(keys[i].1[j], keys[i].1[k]));
        }
    }
}

/// Keys that are there have a place.
pub proof fn lemma_find_key<Metric: PartialOrd>(keys: Keys<Metric>, metric: Metric, label: Label) -> (at: (
    int,
    int,
))
    requires
        has_key(keys, metric, label),
    ensures
        key_at(keys, at.0, at.1, metric, label),
{
    reveal(has_key);
    choose|i: int, j: int| #[trigger] key_at(keys, i, j, metric, label)
}

/// Keys that have a place are there.
pub proof fn lemma_is_key<Metric: PartialOrd>(
    keys: Keys<Metric>,
    i: int,
    j: int,
    metric: Metric,
    label: Label,
)
    requires
        key_at(keys, i, j, metric, label),
    ensures
        has_key(keys, metric, label),
{
    reveal(has_key);
}

/// A measurement for keys that are there already adds no key.
proof fn lemma_known_keys<Metric: PartialOrd>(
    keys: Keys<Metric>,
    taken: Seq<Taken<Metric>>,
    new: Taken<Metric>,
)
    requires
        are_keys_of(keys, taken),
        has_key(keys, new.1, new.0),
    ensures
        are_keys_of(keys, taken.push(new)),
{
    let after = taken.push(new);
    assert forall|i: int| 0 <= i < keys.len() implies is_first_metric(after, (#[trigger] keys[i]).0) by {
        lemma_first_metric_stays(taken, new, keys[i].0);
    }
    assert forall|i: int, j: int|
        0 <= i < keys.len() && 0 <= j < keys[i].1.len() implies is_first_label(
        after,
        keys[i].0,
        #[trigger] keys[i].1[j],
    ) by {
        lemma_first_label_stays(taken, new, keys[i].0, keys[i].1[j]);
    }
    assert forall|n: int| 0 <= n < after.len() implies has_key(
        keys,
        (#[trigger] after[n]).1,
        after[n].0,
    ) by {
        if n < taken.len() {
            assert(after[n] == taken[n]);
        }
    }
}

/// The first of a metric stays the first when more is measured.
proof fn lemma_first_metric_stays<Metric: PartialOrd>(
    taken: Seq<Taken<Metric>>,
    new: Taken<Metric>,
    metric: Metric,
)
    requires
        is_first_metric(taken, metric),
    ensures
        is_first_metric(taken.push(new), metric),
{
    reveal(is_first_metric);
    let n = choose|n: int| #[trigger] first_metric_at(taken, metric, n);
    assert forall|m: int| 0 <= m < n implies !equivalent((#[trigger] taken.push(new)[m]).1, metric) by {
        assert(taken.push(new)[m] == taken[m]);
    }
    assert(first_metric_at(taken.push(new), metric, n));
}

/// The first of a label stays the first when more is measured.
proof fn lemma_first_label_stays<Metric: PartialOrd>(
    taken: Seq<Taken<Metric>>,
    new: Taken<Metric>,
    metric: Metric,
    label: Label,
)
    requires
        is_first_label(taken, metric, label),
    ensures
        is_first_label(taken.push(new), metric, label),
{
    reveal(is_first_label);
    let n = choose|n: int| #[trigger] first_label_at(taken, metric, label, n);
    assert forall|m: int| 0 <= m < n implies !belongs(#[trigger] taken.push(new)[m], metric, label) by {
        assert(taken.push(new)[m] == taken[m]);
    }
    assert(first_label_at(taken.push(new), metric, label, n));
}

/// Nothing was taken for keys that are not there.
proof fn lemma_nothing_taken_for_new_label<Metric: PartialOrd>(
    keys: Keys<Metric>,
    taken: Seq<Taken<Metric>>,
    i: int,
    metric: Metric,
    label: Label,
)
    requires
        total_order::<Metric>(),
        are_keys_of(keys, taken),
        0 <= i < keys.len(),
        equivalent(keys[i].0, metric),
        forall|j: int| 0 <= j < keys[i].1.len() ==> (#[trigger] keys[i].1[j])@ != label@,
    ensures
        forall|n: int| 0 <= n < taken.len() ==> !belongs(#[trigger] taken[n], metric, label),
{
    assert forall|n: int| 0 <= n < taken.len() implies !belongs(#[trigger] taken[n], metric, label) by {
        if belongs(taken[n], metric, label) {
            let m = taken[n].1;
            assert(has_key(keys, taken[n].1, taken[n].0));
            let (p, q) = lemma_find_key(keys, taken[n].1, taken[n].0);
            assert(equivalent(metric, keys[i].0));
            assert(equivalent(m, keys[i].0));
            assert(equivalent(keys[i].0, m));
            assert(equivalent(keys[i].0, keys[p].0));
            assert(equivalent(keys[p].0, keys[i].0));
            if p < i {
                assert(precedes(keys[p].0, keys[i].0));
            } else if i < p {
                assert(precedes(keys[i].0, keys[p].0));
            }
            assert(keys[i].1[q]@ == label@);
        }
    }
}

/// Nothing was taken for a metric that is not there.
proof fn lemma_nothing_taken_for_new_metric<Metric: PartialOrd>(
    keys: Keys<Metric>,
    taken: Seq<Taken<Metric>>,
    metric: Metric,
)
    requires
        total_order::<Metric>(),
        are_keys_of(keys, taken),
        forall|i: int| 0 <= i < keys.len() ==> !equivalent((#[trigger] keys[i]).0, metric),
    ensures
        forall|n: int| 0 <= n < taken.len() ==> !equivalent((#[trigger] taken[n]).1, metric),
{
    assert forall|n: int| 0 <= n < taken.len() implies !equivalent((#[trigger] taken[n]).1, metric) by {
        let m = taken[n].1;
        if equivalent(m, metric) {
            assert(has_key(keys, taken[n].1, taken[n].0));
            let (p, q) = lemma_find_key(keys, taken[n].1, taken[n].0);
            assert(equivalent(keys[p].0, m));
            assert(equivalent(keys[p].0, metric));
        }
    }
}

/// A first measurement for a label adds that label under its metric.
proof fn lemma_new_label<Metric: PartialOrd>(
    keys: Keys<Metric>,
    taken: Seq<Taken<Metric>>,
    new: Taken<Metric>,
    i: int,
    j: int,
)
    requires
        total_order::<Metric>(),
        total_order::<Label>(),
        are_keys_of(keys, taken),
        0 <= i < keys.len(),
        equivalent(keys[i].0, new.1),
        0 <= j <= keys[i].1.len(),
        forall|k: int| 0 <= k < j ==> #[trigger] precedes(keys[i].1[k], new.0),
        forall|k: int| j <= k < keys[i].1.len() ==> #[trigger] precedes(new.0, keys[i].1[k]),
    ensures
        are_keys_of(
            keys.update(i, (keys[i].0, keys[i].1.insert(j, new.0))),
            taken.push(new),
        ),
        forall|n: int| 0 <= n < taken.len() ==> !belongs(#[trigger] taken[n], keys[i].0, new.0),
{
    let after = taken.push(new);
    let labels = keys[i].1;
    let new_labels = labels.insert(j, new.0);
    let new_keys = keys.update(i, (keys[i].0, new_labels));
    assert forall|k: int| 0 <= k < labels.len() implies (#[trigger] labels[k])@ != new.0@ by {
        if k < j {
            assert(precedes(labels[k], new.0));
        } else {
            assert(precedes(new.0, labels[k]));
        }
    }
    lemma_nothing_taken_for_new_label(keys, taken, i, keys[i].0, new.0);
    assert forall|p: int, q: int| 0 <= p < q < new_keys.len() implies #[trigger] precedes(
        new_keys[p].0,
        new_keys[q].0,
    ) by {
        assert(precedes(keys[p].0, keys[q].0));
    }
    assert forall|p: int, q: int, r: int|
        0 <= p < new_keys.len() && 0 <= q < r < new_keys[p].1.len() implies #[trigger] precedes(
        new_keys[p].1[q],
        new_keys[p].1[r],
    ) by {
        if p == i {
            let q0 = if q < j { q } else { q - 1 };
            let r0 = if r < j { r } else { r - 1 };
            if q != j && r != j {
                assert(precedes(labels[q0], labels[r0]));
            } else if q == j {
                assert(precedes(new.0, labels[r0]));
            } else {
                assert(precedes(labels[q0], new.0));
            }
        } else {
            assert(precedes(keys[p].1[q], keys[p].1[r]));
        }
    }
    assert forall|p: int| 0 <= p < new_keys.len() implies is_first_metric(
        after,
        (#[trigger] new_keys[p]).0,
    ) by {
        assert(is_first_metric(taken, keys[p].0));
        lemma_first_metric_stays(taken, new, keys[p].0);
    }
    assert forall|p: int, q: int|
        0 <= p < new_keys.len() && 0 <= q < new_keys[p].1.len() implies is_first_label(
        after,
        new_keys[p].0,
        #[trigger] new_keys[p].1[q],
    ) by {
        if p == i && q == j {
            assert forall|m: int| 0 <= m < taken.len() implies !belongs(
                #[trigger] after[m],
                keys[i].0,
                new.0,
            ) by {
                assert(after[m] == taken[m]);
            }
            assert(equivalent(new.1, keys[i].0));
            assert(is_first_label(after, keys[i].0, new.0)) by {
                reveal(is_first_label);
                assert(first_label_at(after, keys[i].0, new.0, taken.len() as int));
            }
        } else {
            let q0 = if p == i && q > j { q - 1 } else { q };
            assert(new_keys[p].1[q] == keys[p].1[q0]);
            lemma_first_label_stays(taken, new, keys[p].0, keys[p].1[q0]);
        }
    }
    assert forall|n: int| 0 <= n < after.len() implies has_key(
        new_keys,
        (#[trigger] after[n]).1,
        after[n].0,
    ) by {
        if n < taken.len() {
            assert(after[n] == taken[n]);
            assert(has_key(keys, taken[n].1, taken[n].0));
            let (p, q) = lemma_find_key(keys, taken[n].1, taken[n].0);
            let q1 = if p == i && q >= j { q + 1 } else { q };
            lemma_is_key(new_keys, p, q1, taken[n].1, taken[n].0);
        } else {
            assert(equivalent(new.1, keys[i].0));
            lemma_is_key(new_keys, i, j, new.1, new.0);
        }
    }
}

/// A first measurement of a metric adds that metric, with one label.
proof fn lemma_new_metric<Metric: PartialOrd>(
    keys: Keys<Metric>,
    taken: Seq<Taken<Metric>>,
    new: Taken<Metric>,
    i: int,
)
    requires
        total_order::<Metric>(),
        are_keys_of(keys, taken),
        0 <= i <= keys.len(),
        forall|k: int| 0 <= k < i ==> #[trigger] precedes(keys[k].0, new.1),
        forall|k: int| i <= k < keys.len() ==> #[trigger] precedes(new.1, keys[k].0),
    ensures
        are_keys_of(keys.insert(i, (new.1, seq![new.0])), taken.push(new)),
        forall|n: int| 0 <= n < taken.len() ==> !belongs(#[trigger] taken[n], new.1, new.0),
{
    let after = taken.push(new);
    let new_keys = keys.insert(i, (new.1, seq![new.0]));
    assert forall|k: int| 0 <= k < keys.len() implies !equivalent((#[trigger] keys[k]).0, new.1) by {
        if k < i {
            assert(precedes(keys[k].0, new.1));
        } else {
            assert(precedes(new.1, keys[k].0));
            if equivalent(keys[k].0, new.1) {
                assert(equivalent(new.1, keys[k].0));
            }
        }
    }
    lemma_nothing_taken_for_new_metric(keys, taken, new.1);
    assert forall|p: int, q: int| 0 <= p < q < new_keys.len() implies #[trigger] precedes(
        new_keys[p].0,
        new_keys[q].0,
    ) by {
        let p0 = if p < i { p } else { p - 1 };
        let q0 = if q < i { q } else { q - 1 };
        if p != i && q != i {
            assert(precedes(keys[p0].0, keys[q0].0));
        } else if p == i {
            assert(precedes(new.1, keys[q0].0));
        } else {
            assert(precedes(keys[p0].0, new.1));
        }
    }
    assert forall|p: int| 0 <= p < new_keys.len() implies (#[trigger] new_keys[p]).1.len() > 0 by {
        if p != i {
            let p0 = if p < i { p } else { p - 1 };
            assert(new_keys[p] == keys[p0]);
        }
    }
    assert forall|p: int, q: int, r: int|
        0 <= p < new_keys.len() && 0 <= q < r < new_keys[p].1.len() implies #[trigger] precedes(
        new_keys[p].1[q],
        new_keys[p].1[r],
    ) by {
        if p != i {
            let p0 = if p < i { p } else { p - 1 };
            assert(new_keys[p] == keys[p0]);
            assert(precedes(keys[p0].1[q], keys[p0].1[r]));
        }
    }
    assert forall|m: int| 0 <= m < taken.len() implies !equivalent((#[trigger] after[m]).1, new.1) by {
        assert(after[m] == taken[m]);
    }
    assert(equivalent(new.1, new.1));
    assert forall|p: int| 0 <= p < new_keys.len() implies is_first_metric(
        after,
        (#[trigger] new_keys[p]).0,
    ) by {
        if p == i {
            assert(is_first_metric(after, new.1)) by {
                reveal(is_first_metric);
                assert(first_metric_at(after, new.1, taken.len() as int));
            }
        } else {
            let p0 = if p < i { p } else { p - 1 };
            assert(new_keys[p] == keys[p0]);
            lemma_first_metric_stays(taken, new, keys[p0].0);
        }
    }
    assert forall|p: int, q: int|
        0 <= p < new_keys.len() && 0 <= q < new_keys[p].1.len() implies is_first_label(
        after,
        new_keys[p].0,
        #[trigger] new_keys[p].1[q],
    ) by {
        if p == i {
            assert(is_first_label(after, new.1, new.0)) by {
                reveal(is_first_label);
                assert(first_label_at(after, new.1, new.0, taken.len() as int));
            }
        } else {
            let p0 = if p < i { p } else { p - 1 };
            assert(new_keys[p] == keys[p0]);
            lemma_first_label_stays(taken, new, keys[p0].0, keys[p0].1[q]);
        }
    }
    assert forall|n: int| 0 <= n < after.len() implies has_key(
        new_keys,
        (#[trigger] after[n]).1,
        after[n].0,
    ) by {
        if n < taken.len() {
            assert(after[n] == taken[n]);
            assert(has_key(keys, taken[n].1, taken[n].0));
            let (p, q) = lemma_find_key(keys, taken[n].1, taken[n].0);
            let p1 = if p < i { p } else { p + 1 };
            assert(new_keys[p1] == keys[p]);
            lemma_is_key(new_keys, p1, q, taken[n].1, taken[n].0);
        } else {
            lemma_is_key(new_keys, i, 0, new.1, new.0);
        }
    }
}

/// Of measurements none of which belongs to a metric and a label, there are no nanoseconds.
pub proof fn lemma_no_nanos<Metric: PartialOrd>(taken: Seq<Taken<Metric>>, metric: Metric, label: Label)
    requires
        forall|n: int| 0 <= n < taken.len() ==> !belongs(#[trigger] taken[n], metric, label),
    ensures
        nanos_for(taken, metric, label) == Seq::<u64>::empty(),
    decreases taken.len(),
{
    if taken.len() > 0 {
        let earlier = taken.drop_last();
        assert forall|n: int| 0 <= n < earlier.len() implies !belongs(
            #[trigger] earlier[n],
            metric,
            label,
        ) by {
            assert(earlier[n] == taken[n]);
        }
        lemma_no_nanos(earlier, metric, label);
    }
}

/// One more measurement adds its nanoseconds where it belongs, and nowhere else.
pub proof fn lemma_nanos_after<Metric: PartialOrd>(
    taken: Seq<Taken<Metric>>,
    new: Taken<Metric>,
    metric: Metric,
    label: Label,
)
    ensures
        nanos_for(taken.push(new), metric, label) == (if belongs(new, metric, label) {
            nanos_for(taken, metric, label).push(new.2)
        } else {
            nanos_for(taken, metric, label)
        }),
{
    assert(taken.push(new).drop_last() =~= taken);
}

/// The nanoseconds for equivalent metrics and equal labels are the same.
pub proof fn lemma_nanos_of_equivalent<Metric: PartialOrd>(
    taken: Seq<Taken<Metric>>,
    metric: Metric,
    label: Label,
    other_metric: Metric,
    other_label: Label,
)
    requires
        total_order::<Metric>(),
        equivalent(metric, other_metric),
        label@ == other_label@,
    ensures
        nanos_for(taken, metric, label) == nanos_for(taken, other_metric, other_label),
    decreases taken.len(),
{
    if taken.len() > 0 {
        lemma_nanos_of_equivalent(taken.drop_last(), metric, label, other_metric, other_label);
        let m = taken.last().1;
        assert(equivalent(other_metric, metric));
        if equivalent(m, metric) {
            assert(equivalent(m, other_metric));
        }
        if equivalent(m, other_metric) {
            assert(equivalent(m, metric));
        }
    }
}

/// One more measurement where measurements of its metric and label were gathered before.
proof fn lemma_gathers_more<Metric: PartialOrd>(
    entries: Seq<(Metric, SortedMap<Label, Samples>)>,
    after: Seq<(Metric, SortedMap<Label, Samples>)>,
    taken: Seq<Taken<Metric>>,
    new: Taken<Metric>,
    i: int,
    j: int,
)
    requires
        total_order::<Metric>(),
        gathers(entries, taken),
        0 <= i < entries.len(),
        equivalent(entries[i].0, new.1),
        0 <= j < entries[i].1@.len(),
        entries[i].1@[j].0@ == new.0@,
        after == entries.update(i, after[i]),
        after[i].0 == entries[i].0,
        after[i].1@ == entries[i].1@.update(j, after[i].1@[j]),
        after[i].1@[j].0 == entries[i].1@[j].0,
        after[i].1@[j].1.nanos@ == entries[i].1@[j].1.nanos@.push(new.2),
        after[i].1@[j].1.total == sum(after[i].1@[j].1.nanos@),
    ensures
        gathers(after, taken.push(new)),
{
    let keys = collected_keys(entries);
    assert(label_keys(after[i].1@) =~= label_keys(entries[i].1@));
    assert(collected_keys(after) =~= keys);
    assert(equivalent(new.1, keys[i].0));
    lemma_is_key(keys, i, j, new.1, new.0);
    lemma_known_keys(keys, taken, new);
    assert forall|p: int, q: int| 0 <= p < after.len() && 0 <= q < after[p].1@.len() implies (
    #[trigger] after[p].1@[q]).1.holds(nanos_for(taken.push(new), after[p].0, after[p].1@[q].0)) by {
        let known = entries[p].1@[q];
        assert(known.1.holds(nanos_for(taken, entries[p].0, known.0)));
        lemma_nanos_after(taken, new, entries[p].0, known.0);
        if belongs(new, entries[p].0, known.0) {
            lemma_one_place(keys, i, j, p, q, new.1, new.0);
        }
    }
}

/// A metric and a label have one place among keys that are in order.
pub proof fn lemma_one_place<Metric: PartialOrd>(
    keys: Keys<Metric>,
    i: int,
    j: int,
    p: int,
    q: int,
    metric: Metric,
    label: Label,
)
    requires
        total_order::<Metric>(),
        keys_in_order(keys),
        key_at(keys, i, j, metric, label),
        key_at(keys, p, q, metric, label),
    ensures
        i == p,
        j == q,
{
    lemma_labels_are_totally_ordered();
    assert(equivalent(keys[i].0, metric));
    assert(equivalent(keys[i].0, keys[p].0));
    assert(equivalent(keys[p].0, keys[i].0));
    if i < p {
        assert(precedes(keys[i].0, keys[p].0));
    } else if p < i {
        assert(precedes(keys[p].0, keys[i].0));
    }
    if j < q {
        assert(precedes(keys[i].1[j], keys[i].1[q]));
    } else if q < j {
        assert(precedes(keys[i].1[q], keys[i].1[j]));
    }
}

/// A first measurement for a label of a metric that was measured before.
proof fn lemma_gathers_new_label<Metric: PartialOrd>(
    entries: Seq<(Metric, SortedMap<Label, Samples>)>,
    after: Seq<(Metric, SortedMap<Label, Samples>)>,
    taken: Seq<Taken<Metric>>,
    new: Taken<Metric>,
    i: int,
    j: int,
)
    requires
        total_order::<Metric>(),
        gathers(entries, taken),
        0 <= i < entries.len(),
        equivalent(entries[i].0, new.1),
        0 <= j <= entries[i].1@.len(),
        forall|k: int| 0 <= k < j ==> #[trigger] precedes(entries[i].1@[k].0, new.0),
        forall|k: int| j <= k < entries[i].1@.len() ==> #[trigger] precedes(
            new.0,
            entries[i].1@[k].0,
        ),
        after == entries.update(i, after[i]),
        after[i].0 == entries[i].0,
        after[i].1@ == entries[i].1@.insert(j, after[i].1@[j]),
        after[i].1@[j].0 == new.0,
        after[i].1@[j].1.holds(seq![new.2]),
    ensures
        gathers(after, taken.push(new)),
        nanos_for(taken, entries[i].0, new.0) == Seq::<u64>::empty(),
{
    let keys = collected_keys(entries);
    let labels = keys[i].1;
    lemma_labels_are_totally_ordered();
    assert forall|k: int| 0 <= k < j implies #[trigger] precedes(labels[k], new.0) by {
        assert(precedes(entries[i].1@[k].0, new.0));
    }
    assert forall|k: int| j <= k < labels.len() implies #[trigger] precedes(new.0, labels[k]) by {
        assert(precedes(new.0, entries[i].1@[k].0));
    }
    lemma_new_label(keys, taken, new, i, j);
    lemma_no_nanos(taken, keys[i].0, new.0);
    assert(label_keys(after[i].1@) =~= labels.insert(j, new.0));
    let new_keys = keys.update(i, (keys[i].0, labels.insert(j, new.0)));
    assert(collected_keys(after) =~= new_keys);
    assert(equivalent(new.1, keys[i].0));
    assert forall|p: int, q: int| 0 <= p < after.len() && 0 <= q < after[p].1@.len() implies (
    #[trigger] after[p].1@[q]).1.holds(nanos_for(taken.push(new), after[p].0, after[p].1@[q].0)) by {
        lemma_nanos_after(taken, new, after[p].0, after[p].1@[q].0);
        if p == i && q == j {
            assert(nanos_for(taken.push(new), after[p].0, new.0) =~= seq![new.2]);
        } else {
            let q0 = if p == i && q > j { q - 1 } else { q };
            let known = entries[p].1@[q0];
            assert(after[p].1@[q] == known);
            assert(known.1.holds(nanos_for(taken, entries[p].0, known.0)));
            if belongs(new, after[p].0, known.0) {
                lemma_one_place(new_keys, i, j, p, q, new.1, new.0);
            }
        }
    }
}

/// A first measurement of a metric.
proof fn lemma_gathers_new_metric<Metric: PartialOrd>(
    entries: Seq<(Metric, SortedMap<Label, Samples>)>,
    after: Seq<(Metric, SortedMap<Label, Samples>)>,
    taken: Seq<Taken<Metric>>,
    new: Taken<Metric>,
    i: int,
)
    requires
        total_order::<Metric>(),
        gathers(entries, taken),
        0 <= i <= entries.len(),
        forall|k: int| 0 <= k < i ==> #[trigger] precedes(entries[k].0, new.1),
        forall|k: int| i <= k < entries.len() ==> #[trigger] precedes(new.1, entries[k].0),
        after == entries.insert(i, after[i]),
        after[i].0 == new.1,
        after[i].1@.len() == 1,
        after[i].1@[0].0 == new.0,
        after[i].1@[0].1.holds(seq![new.2]),
    ensures
        gathers(after, taken.push(new)),
        nanos_for(taken, new.1, new.0) == Seq::<u64>::empty(),
{
    let keys = collected_keys(entries);
    assert forall|k: int| 0 <= k < i implies #[trigger] precedes(keys[k].0, new.1) by {
        assert(precedes(entries[k].0, new.1));
    }
    assert forall|k: int| i <= k < keys.len() implies #[trigger] precedes(new.1, keys[k].0) by {
        assert(precedes(new.1, entries[k].0));
    }
    lemma_new_metric(keys, taken, new, i);
    lemma_no_nanos(taken, new.1, new.0);
    assert(label_keys(after[i].1@) =~= seq![new.0]);
    let new_keys = keys.insert(i, (new.1, seq![new.0]));
    assert(collected_keys(after) =~= new_keys);
    assert(equivalent(new.1, new.1));
    assert forall|p: int, q: int| 0 <= p < after.len() && 0 <= q < after[p].1@.len() implies (
    #[trigger] after[p].1@[q]).1.holds(nanos_for(taken.push(new), after[p].0, after[p].1@[q].0)) by {
        lemma_nanos_after(taken, new, after[p].0, after[p].1@[q].0);
        if p == i {
            assert(nanos_for(taken.push(new), new.1, new.0) =~= seq![new.2]);
        } else {
            let p0 = if p < i { p } else { p - 1 };
            let known = entries[p0].1@[q];
            assert(after[p] == entries[p0]);
            assert(known.1.holds(nanos_for(taken, entries[p0].0, known.0)));
            if belongs(new, after[p].0, known.0) {
                lemma_one_place(new_keys, i, 0, p, q, new.1, new.0);
            }
        }
    }
}

} // verus!
