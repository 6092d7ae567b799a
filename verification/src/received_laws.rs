//! What holds of collecting measurements, in whatever order they were received.
use std::cmp::Ordering;
use vstd::prelude::*;
use vstd::std_specs::cmp::PartialOrdSpec;

use crate::collect::{
    as_taken, belongs, collects, is_first_label, is_first_metric, lemma_nanos_of_equivalent,
    nanos_for, result_at, summary_keys, CollectError, Collector, Measurement, MetricSummaries,
    Taken,
};
use crate::collect_laws::{
    lemma_every_measurement_is_reported, lemma_find_first_label, lemma_find_first_metric,
    lemma_interleaving_does_not_matter, lemma_nanos_hold, same_report,
};
use crate::label::Label;
use crate::order::{equivalent, precedes, total_order};
use crate::sorted::{holds_key, increasing, SortedMap};
use crate::stats::sum;

verus! {

/// The measurements fit 64 bits of nanoseconds, and so do the sums of those that belong together.
pub open spec fn fits<Metric: PartialOrd>(measurements: Seq<Measurement<Metric>>) -> bool {
    &&& forall|n: int| 0 <= n < measurements.len() ==> (#[trigger] measurements[n]).nanos <= u64::MAX
    &&& forall|metric: Metric, label: Label|
        sum(#[trigger] nanos_for(as_taken(measurements), metric, label)) <= u64::MAX
}

/// Collecting succeeds exactly if the measurements fit.
pub proof fn lemma_collects_what_fits<Metric: PartialOrd>(
    measurements: Seq<Measurement<Metric>>,
    outcome: Result<MetricSummaries<Metric>, CollectError>,
)
    requires
        total_order::<Metric>(),
        collects(measurements, outcome),
    ensures
        outcome is Ok <==> fits(measurements),
{
    if outcome is Ok {
        assert forall|n: int| 0 <= n < measurements.len() implies (#[trigger] measurements[n]).nanos
            <= u64::MAX by {
            assert(result_at(measurements, n) is Ok);
        }
        assert forall|metric: Metric, label: Label|
            sum(#[trigger] nanos_for(as_taken(measurements), metric, label)) <= u64::MAX by {
            lemma_sums_of_what_was_taken(measurements, measurements.len() as int, metric, label);
            assert(measurements.take(measurements.len() as int) =~= measurements);
        }
    } else if fits(measurements) {
        let error = outcome->Err_0;
        let n = choose|n: int|
            {
                &&& 0 <= n < measurements.len()
                &&& #[trigger] result_at(measurements, n) == Err::<(), CollectError>(error)
                &&& forall|m: int| 0 <= m < n ==> #[trigger] result_at(measurements, m) is Ok
            };
        let m = measurements[n];
        let taken = as_taken(measurements);
        assert(m.nanos <= u64::MAX);
        assert(sum(nanos_for(taken, m.metric, m.label)) <= u64::MAX);
        lemma_sum_of_earlier(taken, n + 1, m.metric, m.label);
        assert(taken.take(n + 1).drop_last() =~= as_taken(measurements.take(n)));
        assert(taken.take(n + 1).last() == taken[n]);
        assert(equivalent(m.metric, m.metric));
        assert(belongs(taken[n], m.metric, m.label));
        lemma_sum_of_one_more(nanos_for(as_taken(measurements.take(n)), m.metric, m.label), m.nanos as u64);
    }
}

/// One more measurement adds to the sum.
proof fn lemma_sum_of_one_more(nanos: Seq<u64>, value: u64)
    ensures
        sum(nanos.push(value)) == sum(nanos) + value,
{
    assert(nanos.push(value).drop_last() =~= nanos);
}

/// The first `upto` measurements fit if each of them could be taken up.
proof fn lemma_sums_of_what_was_taken<Metric: PartialOrd>(
    measurements: Seq<Measurement<Metric>>,
    upto: int,
    metric: Metric,
    label: Label,
)
    requires
        total_order::<Metric>(),
        0 <= upto <= measurements.len(),
        forall|n: int| 0 <= n < measurements.len() ==> #[trigger] result_at(measurements, n) is Ok,
    ensures
        sum(nanos_for(as_taken(measurements.take(upto)), metric, label)) <= u64::MAX,
    decreases upto,
{
    let taken = as_taken(measurements.take(upto));
    if upto > 0 {
        let n = upto - 1;
        lemma_sums_of_what_was_taken(measurements, n, metric, label);
        let earlier = as_taken(measurements.take(n));
        let m = measurements[n];
        assert(taken.drop_last() =~= earlier);
        assert(taken.last() == (m.label, m.metric, m.nanos as u64));
        assert(result_at(measurements, n) is Ok);
        if belongs(taken.last(), metric, label) {
            lemma_nanos_of_equivalent(earlier, m.metric, m.label, metric, label);
            lemma_sum_of_one_more(nanos_for(earlier, metric, label), m.nanos as u64);
        }
    }
}

/// The sum of the first measurements is at most that of all.
proof fn lemma_sum_of_earlier<Metric: PartialOrd>(
    taken: Seq<Taken<Metric>>,
    upto: int,
    metric: Metric,
    label: Label,
)
    requires
        0 <= upto <= taken.len(),
    ensures
        sum(nanos_for(taken.take(upto), metric, label)) <= sum(nanos_for(taken, metric, label)),
    decreases taken.len(),
{
    if upto == taken.len() {
        assert(taken.take(upto) =~= taken);
    } else {
        let earlier = taken.drop_last();
        assert(earlier.take(upto) =~= taken.take(upto));
        lemma_sum_of_earlier(earlier, upto, metric, label);
        lemma_sum_of_one_more(nanos_for(earlier, metric, label), taken.last().2);
    }
}

/// The durations of the measurements that belong to `metric` and `label`, in the order in which they
/// were received.
pub open spec fn durations_for<Metric: PartialOrd>(
    measurements: Seq<Measurement<Metric>>,
    metric: Metric,
    label: Label,
) -> Seq<u128>
    decreases measurements.len(),
{
    if measurements.len() == 0 {
        Seq::empty()
    } else {
        let earlier = durations_for(measurements.drop_last(), metric, label);
        let last = measurements.last();
        if equivalent(last.metric, metric) && last.label@ == label@ {
            earlier.push(last.nanos)
        } else {
            earlier
        }
    }
}

/// How threads interleave does not matter: measurements that were received in another order, but
/// in the same order for each metric and label, give the same summaries, or none.
pub proof fn lemma_same_summaries_in_any_interleaving<Metric: PartialOrd>(
    received: Seq<Measurement<Metric>>,
    otherwise: Seq<Measurement<Metric>>,
    a: Result<MetricSummaries<Metric>, CollectError>,
    b: Result<MetricSummaries<Metric>, CollectError>,
)
    requires
        total_order::<Metric>(),
        forall|metric: Metric, label: Label|
            #[trigger] durations_for(received, metric, label) == durations_for(
                otherwise,
                metric,
                label,
            ),
        collects(received, a),
        collects(otherwise, b),
    ensures
        a is Ok <==> b is Ok,
        a is Ok ==> same_report(a->Ok_0@, b->Ok_0@),
{
    let (x, y) = (as_taken(received), as_taken(otherwise));
    assert forall|metric: Metric, label: Label|
        #[trigger] nanos_for(x, metric, label) == nanos_for(y, metric, label) by {
        lemma_nanos_are_durations(received, metric, label);
        lemma_nanos_are_durations(otherwise, metric, label);
        assert(durations_for(received, metric, label) == durations_for(otherwise, metric, label));
    }
    lemma_collects_what_fits(received, a);
    lemma_collects_what_fits(otherwise, b);
    if fits(received) {
        lemma_fits_otherwise(received, otherwise);
    }
    if fits(otherwise) {
        assert forall|metric: Metric, label: Label|
            #[trigger] durations_for(otherwise, metric, label) == durations_for(
                received,
                metric,
                label,
            ) by {
            assert(durations_for(received, metric, label) == durations_for(otherwise, metric, label));
        }
        lemma_fits_otherwise(otherwise, received);
    }
    if a is Ok {
        lemma_interleaving_does_not_matter(a->Ok_0@, b->Ok_0@, x, y);
    }
}

/// Whether measurements fit does not depend on how they interleave.
proof fn lemma_fits_otherwise<Metric: PartialOrd>(
    received: Seq<Measurement<Metric>>,
    otherwise: Seq<Measurement<Metric>>,
)
    requires
        total_order::<Metric>(),
        forall|metric: Metric, label: Label|
            #[trigger] durations_for(received, metric, label) == durations_for(
                otherwise,
                metric,
                label,
            ),
        fits(received),
    ensures
        fits(otherwise),
{
    assert forall|n: int| 0 <= n < otherwise.len() implies (#[trigger] otherwise[n]).nanos
        <= u64::MAX by {
        let m = otherwise[n];
        assert(equivalent(m.metric, m.metric));
        lemma_duration_is_there(otherwise, m.metric, m.label, n);
        let durations = durations_for(received, m.metric, m.label);
        let k = choose|k: int| 0 <= k < durations.len() && durations[k] == m.nanos;
        lemma_durations_fit(received, m.metric, m.label, k);
    }
    assert forall|metric: Metric, label: Label|
        sum(#[trigger] nanos_for(as_taken(otherwise), metric, label)) <= u64::MAX by {
        lemma_nanos_are_durations(received, metric, label);
        lemma_nanos_are_durations(otherwise, metric, label);
        assert(durations_for(received, metric, label) == durations_for(otherwise, metric, label));
        assert(sum(nanos_for(as_taken(received), metric, label)) <= u64::MAX);
    }
}

/// The nanoseconds of what is taken up are the durations of what was received.
proof fn lemma_nanos_are_durations<Metric: PartialOrd>(
    measurements: Seq<Measurement<Metric>>,
    metric: Metric,
    label: Label,
)
    ensures
        nanos_for(as_taken(measurements), metric, label) == durations_for(
            measurements,
            metric,
            label,
        ).map_values(|duration: u128| duration as u64),
    decreases measurements.len(),
{
    let taken = as_taken(measurements);
    let durations = durations_for(measurements, metric, label);
    let cut = |duration: u128| duration as u64;
    if measurements.len() > 0 {
        let rest = measurements.drop_last();
        lemma_nanos_are_durations(rest, metric, label);
        assert(taken.drop_last() =~= as_taken(rest));
        let last = measurements.last();
        assert(taken.last() == (last.label, last.metric, last.nanos as u64));
        assert(durations_for(rest, metric, label).push(last.nanos).map_values(cut)
            =~= durations_for(rest, metric, label).map_values(cut).push(last.nanos as u64));
    }
    assert(nanos_for(taken, metric, label) =~= durations.map_values(cut));
}

/// The duration of a measurement is among those of its metric and label.
proof fn lemma_duration_is_there<Metric: PartialOrd>(
    measurements: Seq<Measurement<Metric>>,
    metric: Metric,
    label: Label,
    n: int,
)
    requires
        0 <= n < measurements.len(),
        equivalent(measurements[n].metric, metric),
        measurements[n].label@ == label@,
    ensures
        durations_for(measurements, metric, label).contains(measurements[n].nanos),
    decreases measurements.len(),
{
    let durations = durations_for(measurements, metric, label);
    if n == measurements.len() - 1 {
        assert(durations.last() == measurements[n].nanos);
    } else {
        let rest = measurements.drop_last();
        lemma_duration_is_there(rest, metric, label, n);
        let before = durations_for(rest, metric, label);
        let k = choose|k: int| 0 <= k < before.len() && before[k] == measurements[n].nanos;
        assert(durations[k] == measurements[n].nanos);
    }
}

/// The durations of measurements that fit do.
proof fn lemma_durations_fit<Metric: PartialOrd>(
    measurements: Seq<Measurement<Metric>>,
    metric: Metric,
    label: Label,
    k: int,
)
    requires
        forall|n: int|
            0 <= n < measurements.len() ==> (#[trigger] measurements[n]).nanos <= u64::MAX,
        0 <= k < durations_for(measurements, metric, label).len(),
    ensures
        durations_for(measurements, metric, label)[k] <= u64::MAX,
    decreases measurements.len(),
{
    let rest = measurements.drop_last();
    assert(measurements[measurements.len() - 1].nanos <= u64::MAX);
    assert forall|n: int| 0 <= n < rest.len() implies (#[trigger] rest[n]).nanos <= u64::MAX by {
        assert(rest[n] == measurements[n]);
    }
    if k < durations_for(rest, metric, label).len() {
        lemma_durations_fit(rest, metric, label, k);
    }
}

/// The measurements that were received for `metric` and `label`, as they were received.
pub open spec fn own<Metric: PartialOrd>(
    measurements: Seq<Measurement<Metric>>,
    metric: Metric,
    label: Label,
) -> Seq<Measurement<Metric>> {
    measurements.filter(
        |m: Measurement<Metric>|
            m.metric.partial_cmp_spec(&metric) == Some(Ordering::Equal) && m.label@ == label@,
    )
}

/// The time that measurements take together.
pub open spec fn time_of<Metric>(measurements: Seq<Measurement<Metric>>) -> int {
    measurements.fold_left(0int, |time: int, m: Measurement<Metric>| time + m.nanos)
}

/// Under each metric and label stand the statistics of exactly the measurements that were received
/// for them: all of these, in their order and as long as they were, and no others.
pub proof fn lemma_each_label_lists_its_own_measurements<Metric: PartialOrd>(
    measurements: Seq<Measurement<Metric>>,
    outcome: Result<MetricSummaries<Metric>, CollectError>,
    i: int,
    j: int,
)
    requires
        total_order::<Metric>(),
        collects(measurements, outcome),
        outcome is Ok,
        0 <= i < outcome->Ok_0@.len(),
        0 <= j < outcome->Ok_0@[i].1.labels@.len(),
    ensures
        ({
            let (label, stats) = outcome->Ok_0@[i].1.labels@[j];
            let received = own(measurements, outcome->Ok_0@[i].0, label);
            &&& received.len() > 0
            &&& stats.plottable_stats@.len() == received.len()
            &&& forall|k: int|
                0 <= k < received.len() ==> #[trigger] stats.plottable_stats@[k] == received[k].nanos
            &&& stats.describes(stats.plottable_stats@)
            &&& stats.average.total == time_of(received)
        }),
{
    let summaries = outcome->Ok_0@;
    let taken = as_taken(measurements);
    let (label, stats) = summaries[i].1.labels@[j];
    let metric = summaries[i].0;
    assert(summaries[i].1.summarizes(taken, metric));
    assert(stats.describes(nanos_for(taken, metric, label)));
    let keys = summary_keys(summaries);
    assert(keys[i].1[j] == label);
    assert(is_first_label(taken, keys[i].0, keys[i].1[j]));
    let n = lemma_find_first_label(taken, metric, label);
    lemma_nanos_hold(taken, metric, label, n);
    lemma_collects_what_fits(measurements, outcome);
    lemma_nanos_are_own(measurements, metric, label);
    assert forall|k: int| 0 <= k < own(measurements, metric, label).len() implies
        #[trigger] stats.plottable_stats@[k] == own(measurements, metric, label)[k].nanos by {
        assert(nanos_for(taken, metric, label)[k] == own(measurements, metric, label)[k].nanos);
    }
}

/// Every measurement that was received has its place: its metric is among the summaries, and under it
/// its label.
pub proof fn lemma_every_measurement_has_its_place<Metric: PartialOrd>(
    measurements: Seq<Measurement<Metric>>,
    outcome: Result<MetricSummaries<Metric>, CollectError>,
    n: int,
) -> (at: (int, int))
    requires
        total_order::<Metric>(),
        collects(measurements, outcome),
        outcome is Ok,
        0 <= n < measurements.len(),
    ensures
        0 <= at.0 < outcome->Ok_0@.len(),
        0 <= at.1 < outcome->Ok_0@[at.0].1.labels@.len(),
        measurements[n].metric.partial_cmp_spec(&outcome->Ok_0@[at.0].0) == Some(Ordering::Equal),
        measurements[n].label@ == outcome->Ok_0@[at.0].1.labels@[at.1].0@,
{
    let at = lemma_every_measurement_is_reported(outcome->Ok_0@, as_taken(measurements), n);
    assert(as_taken(measurements)[n].1 == measurements[n].metric);
    assert(as_taken(measurements)[n].0 == measurements[n].label);
    at
}

/// Metrics are reported in increasing order, each with at least one label, and their labels too are
/// in increasing order. The number of invocations is that of the first label.
pub proof fn lemma_reports_are_in_order<Metric: PartialOrd>(
    measurements: Seq<Measurement<Metric>>,
    outcome: Result<MetricSummaries<Metric>, CollectError>,
    i: int,
)
    requires
        collects(measurements, outcome),
        outcome is Ok,
        0 <= i < outcome->Ok_0@.len(),
    ensures
        forall|k: int|
            i < k < outcome->Ok_0@.len() ==> outcome->Ok_0@[i].0.partial_cmp_spec(
                &(#[trigger] outcome->Ok_0@[k]).0,
            ) == Some(Ordering::Less),
        forall|j: int, k: int|
            0 <= j < k < outcome->Ok_0@[i].1.labels@.len() ==> (
            #[trigger] outcome->Ok_0@[i].1.labels@[j]).0.partial_cmp_spec(
                &(#[trigger] outcome->Ok_0@[i].1.labels@[k]).0,
            ) == Some(Ordering::Less),
        outcome->Ok_0@[i].1.labels@.len() > 0,
        outcome->Ok_0@[i].1.invocations
            == outcome->Ok_0@[i].1.labels@[0].1.plottable_stats@.len(),
        exists|n: int|
            0 <= n < measurements.len() && (#[trigger] measurements[n]).metric
                == outcome->Ok_0@[i].0,
{
    let summaries = outcome->Ok_0@;
    let taken = as_taken(measurements);
    let keys = summary_keys(summaries);
    assert forall|k: int| i < k < summaries.len() implies summaries[i].0.partial_cmp_spec(
        &(#[trigger] summaries[k]).0,
    ) == Some(Ordering::Less) by {
        assert(precedes(keys[i].0, keys[k].0));
    }
    assert(keys[i].1.len() > 0);
    let labels = summaries[i].1.labels@;
    assert forall|j: int, k: int| 0 <= j < k < labels.len() implies (
    #[trigger] labels[j]).0.partial_cmp_spec(&(#[trigger] labels[k]).0) == Some(Ordering::Less) by {
        assert(precedes(keys[i].1[j], keys[i].1[k]));
    }
    assert(summaries[i].1.summarizes(taken, summaries[i].0));
    assert(labels[0].1.describes(nanos_for(taken, summaries[i].0, labels[0].0)));
    assert(is_first_metric(taken, keys[i].0));
    let n = lemma_find_first_metric(taken, keys[i].0);
    assert(taken[n].1 == measurements[n].metric);
}

/// Measurements are summarized exactly if each of them, and the time that those of each metric and
/// label take together, fit 64 bits of nanoseconds.
pub proof fn lemma_what_can_be_summarized<Metric: PartialOrd>(
    measurements: Seq<Measurement<Metric>>,
    outcome: Result<MetricSummaries<Metric>, CollectError>,
)
    requires
        total_order::<Metric>(),
        collects(measurements, outcome),
    ensures
        outcome is Ok <==> {
            &&& forall|n: int|
                0 <= n < measurements.len() ==> (#[trigger] measurements[n]).nanos
                    <= 0xffff_ffff_ffff_ffff
            &&& forall|metric: Metric, label: Label|
                time_of(#[trigger] own(measurements, metric, label)) <= 0xffff_ffff_ffff_ffff
        },
{
    lemma_collects_what_fits(measurements, outcome);
    let each = forall|n: int|
        0 <= n < measurements.len() ==> (#[trigger] measurements[n]).nanos <= u64::MAX;
    if each {
        assert forall|metric: Metric, label: Label|
            time_of(#[trigger] own(measurements, metric, label)) == sum(
                nanos_for(as_taken(measurements), metric, label),
            ) by {
            lemma_nanos_are_own(measurements, metric, label);
        }
        if fits(measurements) {
            assert forall|metric: Metric, label: Label|
                time_of(#[trigger] own(measurements, metric, label)) <= u64::MAX by {
                assert(sum(nanos_for(as_taken(measurements), metric, label)) <= u64::MAX);
            }
        }
        if forall|metric: Metric, label: Label|
            time_of(#[trigger] own(measurements, metric, label)) <= u64::MAX {
            assert forall|metric: Metric, label: Label|
                sum(#[trigger] nanos_for(as_taken(measurements), metric, label)) <= u64::MAX by {
                assert(time_of(own(measurements, metric, label)) <= u64::MAX);
            }
        }
    }
}

/// The first measurement that does not fit is what is complained about: one that is too long itself,
/// or one with which its metric and label take too long together. All before it fit.
pub proof fn lemma_the_first_misfit_is_complained_about<Metric: PartialOrd>(
    measurements: Seq<Measurement<Metric>>,
    outcome: Result<MetricSummaries<Metric>, CollectError>,
) -> (n: int)
    requires
        total_order::<Metric>(),
        collects(measurements, outcome),
        outcome is Err,
    ensures
        0 <= n < measurements.len(),
        outcome->Err_0 == CollectError::TooLong <==> measurements[n].nanos > 0xffff_ffff_ffff_ffff,
        outcome->Err_0 == CollectError::TotalTooLong ==> time_of(
            own(measurements.take(n + 1), measurements[n].metric, measurements[n].label),
        ) > 0xffff_ffff_ffff_ffff,
        forall|m: int|
            0 <= m < n ==> (#[trigger] measurements[m]).nanos <= 0xffff_ffff_ffff_ffff,
        forall|metric: Metric, label: Label|
            time_of(#[trigger] own(measurements.take(n), metric, label)) <= 0xffff_ffff_ffff_ffff,
{
    let error = outcome->Err_0;
    let n = choose|n: int|
        {
            &&& 0 <= n < measurements.len()
            &&& #[trigger] result_at(measurements, n) == Err::<(), CollectError>(error)
            &&& forall|m: int| 0 <= m < n ==> #[trigger] result_at(measurements, m) is Ok
        };
    let before = measurements.take(n);
    assert forall|m: int| 0 <= m < n implies #[trigger] result_at(before, m) == result_at(
        measurements,
        m,
    ) by {
        assert(before.take(m) =~= measurements.take(m));
    }
    assert forall|m: int| 0 <= m < n implies (#[trigger] measurements[m]).nanos <= u64::MAX by {
        assert(result_at(measurements, m) is Ok);
    }
    assert forall|m: int| 0 <= m < before.len() implies #[trigger] result_at(before, m) is Ok by {
        assert(result_at(measurements, m) is Ok);
    }
    assert forall|metric: Metric, label: Label|
        time_of(#[trigger] own(before, metric, label)) <= u64::MAX by {
        lemma_sums_of_what_was_taken(before, n, metric, label);
        assert(before.take(n) =~= before);
        lemma_nanos_are_own(before, metric, label);
    }
    let (metric, label) = (measurements[n].metric, measurements[n].label);
    if measurements[n].nanos <= u64::MAX {
        let upto = measurements.take(n + 1);
        lemma_nanos_are_own(upto, metric, label);
        assert(as_taken(upto).drop_last() =~= as_taken(before));
        assert(as_taken(upto).last().1 == metric);
        assert(equivalent(metric, metric));
        lemma_sum_of_one_more(
            nanos_for(as_taken(before), metric, label),
            as_taken(upto).last().2,
        );
    }
    n
}

/// What is taken up for a metric and a label is what was received for them, as long as it fits.
proof fn lemma_nanos_are_own<Metric: PartialOrd>(
    measurements: Seq<Measurement<Metric>>,
    metric: Metric,
    label: Label,
)
    requires
        forall|n: int|
            0 <= n < measurements.len() ==> (#[trigger] measurements[n]).nanos <= u64::MAX,
    ensures
        nanos_for(as_taken(measurements), metric, label).len() == own(
            measurements,
            metric,
            label,
        ).len(),
        forall|k: int|
            0 <= k < own(measurements, metric, label).len() ==> #[trigger] nanos_for(
                as_taken(measurements),
                metric,
                label,
            )[k] == own(measurements, metric, label)[k].nanos,
        sum(nanos_for(as_taken(measurements), metric, label)) == time_of(
            own(measurements, metric, label),
        ),
    decreases measurements.len(),
{
    reveal(Seq::filter);
    let taken = as_taken(measurements);
    if measurements.len() > 0 {
        let rest = measurements.drop_last();
        assert forall|n: int| 0 <= n < rest.len() implies (#[trigger] rest[n]).nanos <= u64::MAX by {
            assert(rest[n] == measurements[n]);
        }
        lemma_nanos_are_own(rest, metric, label);
        assert(taken.drop_last() =~= as_taken(rest));
        let last = measurements.last();
        assert(measurements[measurements.len() - 1].nanos <= u64::MAX);
        assert(taken.last().2 == last.nanos);
        let (earlier, kept) = (nanos_for(as_taken(rest), metric, label), own(rest, metric, label));
        if belongs(taken.last(), metric, label) {
            assert(own(measurements, metric, label) == kept.push(last));
            assert(nanos_for(taken, metric, label) == earlier.push(taken.last().2));
            lemma_sum_of_one_more(earlier, taken.last().2);
            assert(kept.push(last).drop_last() =~= kept);
            assert forall|k: int| 0 <= k < kept.len() + 1 implies #[trigger] nanos_for(
                taken,
                metric,
                label,
            )[k] == own(measurements, metric, label)[k].nanos by {
                if k < kept.len() {
                    assert(nanos_for(as_taken(rest), metric, label)[k] == kept[k].nanos);
                }
            }
        } else {
            assert(own(measurements, metric, label) == kept);
            assert(nanos_for(taken, metric, label) == earlier);
        }
    }
}

/// A summary is found by its metric, and by every metric that stands at the same place in the order;
/// one that was not measured is not found.
pub proof fn lemma_summaries_are_found_by_their_keys<K: PartialOrd, V>(
    map: SortedMap<K, V>,
    key: K,
    value: Option<&V>,
    i: int,
)
    requires
        total_order::<K>(),
        increasing(map@),
        call_ensures(SortedMap::<K, V>::get, (&map, &key), value),
        0 <= i < map@.len(),
    ensures
        map@[i].0.partial_cmp_spec(&key) == Some(Ordering::Equal) ==> value == Some(&map@[i].1),
        value is None ==> map@[i].0.partial_cmp_spec(&key) != Some(Ordering::Equal),
{
    if equivalent(map@[i].0, key) {
        assert(holds_key(map@, key));
        let k = choose|k: int|
            0 <= k < map@.len() && equivalent(#[trigger] map@[k].0, key) && *value->0 == map@[k].1;
        assert(equivalent(key, map@[k].0));
        assert(equivalent(map@[i].0, map@[k].0));
        assert(equivalent(map@[k].0, map@[i].0));
        if i < k {
            assert(precedes(map@[i].0, map@[k].0));
        } else if k < i {
            assert(precedes(map@[k].0, map@[i].0));
        }
    }
}

/// A collector takes up a measurement as it is, behind those it has taken up, or refuses it and stays
/// as it was: exactly if the measurement, or the time of its metric and label with it, does not fit
/// 64 bits of nanoseconds.
pub proof fn lemma_a_collector_takes_up_what_fits<Metric: PartialOrd>(
    collector: &mut Collector<Metric>,
    measurement: Measurement<Metric>,
    r: Result<(), CollectError>,
)
    requires
        call_ensures(Collector::<Metric>::record, (collector, measurement), r),
    ensures
        r == Err::<(), CollectError>(CollectError::TooLong) <==> measurement.nanos
            > 0xffff_ffff_ffff_ffff,
        r == Err::<(), CollectError>(CollectError::TotalTooLong) <==> measurement.nanos
            <= 0xffff_ffff_ffff_ffff && sum(
            nanos_for(old(collector)@, measurement.metric, measurement.label),
        ) + measurement.nanos > 0xffff_ffff_ffff_ffff,
        r is Err ==> final(collector)@ == old(collector)@,
        r is Ok ==> {
            &&& final(collector)@.len() == old(collector)@.len() + 1
            &&& final(collector)@.drop_last() == old(collector)@
            &&& final(collector)@.last().0 == measurement.label
            &&& final(collector)@.last().1 == measurement.metric
            &&& final(collector)@.last().2 == measurement.nanos
        },
{
    if r is Ok {
        assert(final(collector)@.drop_last() =~= old(collector)@);
    }
}

} // verus!
