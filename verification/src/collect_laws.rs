//! Laws of the summaries that a collection of measurements ends in.
use vstd::prelude::*;

use crate::collect::{
    are_keys_of, belongs, first_label_at, first_metric_at, has_key, is_first_label,
    is_first_metric, key_at, keys_in_order, label_keys, lemma_find_key, lemma_nanos_after,
    lemma_nanos_of_equivalent, lemma_no_nanos, lemma_one_place, nanos_for, summarizes, summary_keys, Keys,
    MetricSummary, Taken,
};
use crate::label::{lemma_labels_are_totally_ordered, Label};
use crate::order::{equivalent, precedes, total_order};
use crate::sorted::increasing;
use crate::stats::MetricStats;

verus! {

/// Every measurement that was taken up is reported: under its metric and its label stand
/// statistics that list it.
pub proof fn lemma_every_measurement_is_reported<Metric: PartialOrd>(
    summaries: Seq<(Metric, MetricSummary)>,
    taken: Seq<Taken<Metric>>,
    n: int,
) -> (at: (int, int))
    requires
        total_order::<Metric>(),
        summarizes(summaries, taken),
        0 <= n < taken.len(),
    ensures
        key_at(summary_keys(summaries), at.0, at.1, taken[n].1, taken[n].0),
        summaries[at.0].1.labels@[at.1].1.plottable_stats@.contains(taken[n].2),
{
    let keys = summary_keys(summaries);
    assert(has_key(keys, taken[n].1, taken[n].0));
    let (i, j) = lemma_find_key(keys, taken[n].1, taken[n].0);
    assert(summaries[i].1.summarizes(taken, summaries[i].0));
    let entry = summaries[i].1.labels@[j];
    assert(entry.1.describes(nanos_for(taken, summaries[i].0, entry.0)));
    lemma_nanos_hold(taken, summaries[i].0, entry.0, n);
    (i, j)
}

/// The nanoseconds for a metric and a label hold those of each measurement that belongs there.
pub proof fn lemma_nanos_hold<Metric: PartialOrd>(
    taken: Seq<Taken<Metric>>,
    metric: Metric,
    label: Label,
    n: int,
)
    requires
        0 <= n < taken.len(),
        belongs(taken[n], metric, label),
    ensures
        nanos_for(taken, metric, label).contains(taken[n].2),
    decreases taken.len(),
{
    let nanos = nanos_for(taken, metric, label);
    if n == taken.len() - 1 {
        assert(nanos.last() == taken[n].2);
    } else {
        let earlier = taken.drop_last();
        lemma_nanos_hold(earlier, metric, label, n);
        let before = nanos_for(earlier, metric, label);
        let k = choose|k: int| 0 <= k < before.len() && before[k] == taken[n].2;
        assert(nanos[k] == taken[n].2);
    }
}

/// The summaries are ordered by metric, and the statistics of each by label.
pub proof fn lemma_summaries_are_ordered<Metric: PartialOrd>(
    summaries: Seq<(Metric, MetricSummary)>,
    taken: Seq<Taken<Metric>>,
)
    requires
        summarizes(summaries, taken),
    ensures
        increasing(summaries),
        forall|i: int| 0 <= i < summaries.len() ==> increasing((#[trigger] summaries[i]).1.labels@),
{
    let keys = summary_keys(summaries);
    assert forall|i: int, j: int| 0 <= i < j < summaries.len() implies #[trigger] precedes(
        summaries[i].0,
        summaries[j].0,
    ) by {
        assert(precedes(keys[i].0, keys[j].0));
    }
    assert forall|i: int| 0 <= i < summaries.len() implies increasing(
        (#[trigger] summaries[i]).1.labels@,
    ) by {
        let labels = summaries[i].1.labels@;
        assert forall|j: int, k: int| 0 <= j < k < labels.len() implies #[trigger] precedes(
            labels[j].0,
            labels[k].0,
        ) by {
            assert(precedes(keys[i].1[j], keys[i].1[k]));
        }
    }
}

/// Where every label of a metric observed the same number of invocations, that is the number in
/// the summary.
pub proof fn lemma_invocations_of_each_label<Metric: PartialOrd>(
    summaries: Seq<(Metric, MetricSummary)>,
    taken: Seq<Taken<Metric>>,
    i: int,
    count: nat,
)
    requires
        summarizes(summaries, taken),
        0 <= i < summaries.len(),
        forall|j: int|
            0 <= j < summaries[i].1.labels@.len() ==> (
            #[trigger] summaries[i].1.labels@[j]).1.plottable_stats@.len() == count,
    ensures
        summaries[i].1.invocations == count,
{
    assert(summary_keys(summaries)[i].1.len() > 0);
    assert(summaries[i].1.summarizes(taken, summaries[i].0));
    let entry = summaries[i].1.labels@[0];
    assert(entry.1.describes(nanos_for(taken, summaries[i].0, entry.0)));
}

/// The number of measurements listed under the labels.
pub open spec fn listed_under_labels(labels: Seq<(Label, MetricStats)>) -> nat
    decreases labels.len(),
{
    if labels.len() == 0 {
        0
    } else {
        listed_under_labels(labels.drop_last()) + labels.last().1.plottable_stats@.len()
    }
}

/// The number of measurements listed in all summaries.
pub open spec fn listed<Metric>(summaries: Seq<(Metric, MetricSummary)>) -> nat
    decreases summaries.len(),
{
    if summaries.len() == 0 {
        0
    } else {
        listed(summaries.drop_last()) + listed_under_labels(summaries.last().1.labels@)
    }
}

/// The summaries list as many measurements as were taken up: none is lost and none is listed
/// twice.
pub proof fn lemma_as_many_listed_as_taken<Metric: PartialOrd>(
    summaries: Seq<(Metric, MetricSummary)>,
    taken: Seq<Taken<Metric>>,
)
    requires
        total_order::<Metric>(),
        summarizes(summaries, taken),
    ensures
        listed(summaries) == taken.len(),
{
    let keys = summary_keys(summaries);
    lemma_listed_by_keys(summaries, taken);
    lemma_table_count(keys, taken);
}

/// The number of measurements that belong to `metric` and one of `labels`.
spec fn row_count<Metric: PartialOrd>(
    metric: Metric,
    labels: Seq<Label>,
    taken: Seq<Taken<Metric>>,
) -> nat
    decreases labels.len(),
{
    if labels.len() == 0 {
        0
    } else {
        row_count(metric, labels.drop_last(), taken) + nanos_for(taken, metric, labels.last()).len()
    }
}

/// The number of measurements that belong to one of `keys`.
spec fn table_count<Metric: PartialOrd>(keys: Keys<Metric>, taken: Seq<Taken<Metric>>) -> nat
    decreases keys.len(),
{
    if keys.len() == 0 {
        0
    } else {
        table_count(keys.drop_last(), taken) + row_count(keys.last().0, keys.last().1, taken)
    }
}

/// The summaries list the measurements that belong to their keys.
proof fn lemma_listed_by_keys<Metric: PartialOrd>(
    summaries: Seq<(Metric, MetricSummary)>,
    taken: Seq<Taken<Metric>>,
)
    requires
        forall|i: int|
            0 <= i < summaries.len() ==> (#[trigger] summaries[i]).1.summarizes(taken, summaries[i].0),
    ensures
        listed(summaries) == table_count(summary_keys(summaries), taken),
    decreases summaries.len(),
{
    let keys = summary_keys(summaries);
    if summaries.len() > 0 {
        let rest = summaries.drop_last();
        assert forall|i: int| 0 <= i < rest.len() implies (#[trigger] rest[i]).1.summarizes(
            taken,
            rest[i].0,
        ) by {
            assert(rest[i] == summaries[i]);
        }
        lemma_listed_by_keys(rest, taken);
        assert(keys.drop_last() =~= summary_keys(rest));
        let last = summaries.last();
        assert(summaries[summaries.len() - 1].1.summarizes(taken, last.0));
        lemma_listed_by_labels(last.1.labels@, last.0, taken);
    }
}

/// The statistics of labels list the measurements that belong to them.
proof fn lemma_listed_by_labels<Metric: PartialOrd>(
    labels: Seq<(Label, MetricStats)>,
    metric: Metric,
    taken: Seq<Taken<Metric>>,
)
    requires
        forall|j: int|
            0 <= j < labels.len() ==> (#[trigger] labels[j]).1.describes(
                nanos_for(taken, metric, labels[j].0),
            ),
    ensures
        listed_under_labels(labels) == row_count(metric, label_keys(labels), taken),
    decreases labels.len(),
{
    if labels.len() > 0 {
        let rest = labels.drop_last();
        assert forall|j: int| 0 <= j < rest.len() implies (#[trigger] rest[j]).1.describes(
            nanos_for(taken, metric, rest[j].0),
        ) by {
            assert(rest[j] == labels[j]);
        }
        lemma_listed_by_labels(rest, metric, taken);
        assert(label_keys(labels).drop_last() =~= label_keys(rest));
        assert(labels[labels.len() - 1].1.describes(nanos_for(taken, metric, labels.last().0)));
    }
}

/// Keys that leave no measurement out count each of them once.
proof fn lemma_table_count<Metric: PartialOrd>(keys: Keys<Metric>, taken: Seq<Taken<Metric>>)
    requires
        total_order::<Metric>(),
        keys_in_order(keys),
        forall|n: int| 0 <= n < taken.len() ==> has_key(keys, (#[trigger] taken[n]).1, taken[n].0),
    ensures
        table_count(keys, taken) == taken.len(),
    decreases taken.len(),
{
    if taken.len() == 0 {
        lemma_table_of_nothing(keys, taken);
    } else {
        let earlier = taken.drop_last();
        let new = taken.last();
        assert forall|n: int| 0 <= n < earlier.len() implies has_key(
            keys,
            (#[trigger] earlier[n]).1,
            earlier[n].0,
        ) by {
            assert(earlier[n] == taken[n]);
        }
        lemma_table_count(keys, earlier);
        assert(has_key(keys, taken[taken.len() - 1].1, taken[taken.len() - 1].0));
        let (i, j) = lemma_find_key(keys, new.1, new.0);
        lemma_table_step(keys, keys.len() as int, earlier, new, i, j);
        assert(keys.take(keys.len() as int) =~= keys);
        assert(earlier.push(new) =~= taken);
    }
}

/// Without measurements no key counts any.
proof fn lemma_table_of_nothing<Metric: PartialOrd>(keys: Keys<Metric>, taken: Seq<Taken<Metric>>)
    requires
        taken.len() == 0,
    ensures
        table_count(keys, taken) == 0,
    decreases keys.len(),
{
    if keys.len() > 0 {
        lemma_table_of_nothing(keys.drop_last(), taken);
        lemma_row_of_nothing(keys.last().0, keys.last().1, taken);
    }
}

/// Without measurements no label counts any.
proof fn lemma_row_of_nothing<Metric: PartialOrd>(
    metric: Metric,
    labels: Seq<Label>,
    taken: Seq<Taken<Metric>>,
)
    requires
        taken.len() == 0,
    ensures
        row_count(metric, labels, taken) == 0,
    decreases labels.len(),
{
    if labels.len() > 0 {
        lemma_row_of_nothing(metric, labels.drop_last(), taken);
    }
}

/// One more measurement raises the count of the first `upto` metrics by one, if its place
/// `(i, j)` is among them.
proof fn lemma_table_step<Metric: PartialOrd>(
    keys: Keys<Metric>,
    upto: int,
    taken: Seq<Taken<Metric>>,
    new: Taken<Metric>,
    i: int,
    j: int,
)
    requires
        total_order::<Metric>(),
        keys_in_order(keys),
        key_at(keys, i, j, new.1, new.0),
        0 <= upto <= keys.len(),
    ensures
        table_count(keys.take(upto), taken.push(new)) == table_count(keys.take(upto), taken) + (if i
            < upto {
            1nat
        } else {
            0nat
        }),
    decreases upto,
{
    if upto > 0 {
        let row = upto - 1;
        lemma_table_step(keys, row, taken, new, i, j);
        assert(keys.take(upto).drop_last() =~= keys.take(row));
        assert(keys.take(upto).last() == keys[row]);
        let labels = keys[row].1;
        lemma_row_step(keys, row, labels.len() as int, taken, new, i, j);
        assert(labels.take(labels.len() as int) =~= labels);
    }
}

/// One more measurement raises the count of the first `upto` labels of a metric by one, if its place
/// `(i, j)` is among them.
proof fn lemma_row_step<Metric: PartialOrd>(
    keys: Keys<Metric>,
    row: int,
    upto: int,
    taken: Seq<Taken<Metric>>,
    new: Taken<Metric>,
    i: int,
    j: int,
)
    requires
        total_order::<Metric>(),
        keys_in_order(keys),
        key_at(keys, i, j, new.1, new.0),
        0 <= row < keys.len(),
        0 <= upto <= keys[row].1.len(),
    ensures
        row_count(keys[row].0, keys[row].1.take(upto), taken.push(new)) == row_count(
            keys[row].0,
            keys[row].1.take(upto),
            taken,
        ) + (if i == row && j < upto {
            1nat
        } else {
            0nat
        }),
    decreases upto,
{
    if upto > 0 {
        let place = upto - 1;
        let (metric, labels) = keys[row];
        lemma_row_step(keys, row, place, taken, new, i, j);
        assert(labels.take(upto).drop_last() =~= labels.take(place));
        assert(labels.take(upto).last() == labels[place]);
        lemma_nanos_after(taken, new, metric, labels[place]);
        if belongs(new, metric, labels[place]) {
            assert(key_at(keys, row, place, new.1, new.0));
            lemma_one_place(keys, i, j, row, place, new.1, new.0);
        }
    }
}

/// The two say the same.
pub open spec fn same_stats(a: MetricStats, b: MetricStats) -> bool {
    &&& a.average == b.average
    &&& a.min == b.min
    &&& a.max == b.max
    &&& a.stddev.spread@ == b.stddev.spread@
    &&& a.stddev.count == b.stddev.count
    &&& a.plottable_stats@ == b.plottable_stats@
    &&& a.outliers@ == b.outliers@
}

/// The measurements determine their summaries: the metrics and labels, their order, and every
/// number that is reported of them.
pub proof fn lemma_summaries_are_determined<Metric: PartialOrd>(
    a: Seq<(Metric, MetricSummary)>,
    b: Seq<(Metric, MetricSummary)>,
    taken: Seq<Taken<Metric>>,
)
    requires
        total_order::<Metric>(),
        summarizes(a, taken),
        summarizes(b, taken),
    ensures
        summary_keys(a) == summary_keys(b),
        forall|i: int| 0 <= i < a.len() ==> (#[trigger] a[i]).1.invocations == b[i].1.invocations,
        forall|i: int, j: int|
            0 <= i < a.len() && 0 <= j < a[i].1.labels@.len() ==> same_stats(
                (#[trigger] a[i].1.labels@[j]).1,
                b[i].1.labels@[j].1,
            ),
{
    let (x, y) = (summary_keys(a), summary_keys(b));
    lemma_keys_are_determined(x, y, taken);
    assert forall|i: int| 0 <= i < a.len() implies (#[trigger] a[i]).1.invocations
        == b[i].1.invocations by {
        assert(x[i] == y[i]);
        assert(x[i].1.len() > 0);
        assert(x[i].1[0] == y[i].1[0]);
        assert(a[i].1.summarizes(taken, a[i].0));
        assert(b[i].1.summarizes(taken, b[i].0));
    }
    assert forall|i: int, j: int| 0 <= i < a.len() && 0 <= j < a[i].1.labels@.len() implies same_stats(
        (#[trigger] a[i].1.labels@[j]).1,
        b[i].1.labels@[j].1,
    ) by {
        assert(x[i] == y[i]);
        assert(x[i].1[j] == y[i].1[j]);
        assert(a[i].1.summarizes(taken, a[i].0));
        assert(b[i].1.summarizes(taken, b[i].0));
        let nanos = nanos_for(taken, x[i].0, x[i].1[j]);
        assert(a[i].1.labels@[j].1.describes(nanos));
        assert(b[i].1.labels@[j].1.describes(nanos));
        lemma_stats_are_determined(a[i].1.labels@[j].1, b[i].1.labels@[j].1, nanos);
    }
}

/// Measurements have one minimum, one maximum and one of every other statistic.
pub proof fn lemma_stats_are_determined(a: MetricStats, b: MetricStats, nanos: Seq<u64>)
    requires
        a.describes(nanos),
        b.describes(nanos),
    ensures
        same_stats(a, b),
{
    if nanos.len() > 0 {
        let k = choose|k: int| 0 <= k < nanos.len() && nanos[k] == a.min;
        let m = choose|m: int| 0 <= m < nanos.len() && nanos[m] == b.min;
        let p = choose|p: int| 0 <= p < nanos.len() && nanos[p] == a.max;
        let q = choose|q: int| 0 <= q < nanos.len() && nanos[q] == b.max;
        assert(a.min <= nanos[m] && b.min <= nanos[k]);
        assert(nanos[q] <= a.max && nanos[p] <= b.max);
    }
}

/// The same metrics and labels were measured.
pub open spec fn same_pairs_measured<Metric: PartialOrd>(
    a: Seq<Taken<Metric>>,
    b: Seq<Taken<Metric>>,
) -> bool {
    forall|metric: Metric, label: Label|
        (#[trigger] nanos_for(a, metric, label)).len() > 0 <==> nanos_for(b, metric, label).len() > 0
}

/// Every metric and label was measured alike: the measurements that belong to them are the same, in
/// the same order. How the measurements of different metrics and labels interleave is left open.
pub open spec fn measured_alike<Metric: PartialOrd>(
    a: Seq<Taken<Metric>>,
    b: Seq<Taken<Metric>>,
) -> bool {
    forall|metric: Metric, label: Label|
        #[trigger] nanos_for(a, metric, label) == nanos_for(b, metric, label)
}

/// Place by place the metrics are equivalent and the labels equal.
pub open spec fn keys_alike<Metric: PartialOrd>(x: Keys<Metric>, y: Keys<Metric>) -> bool {
    &&& x.len() == y.len()
    &&& forall|i: int|
        0 <= i < x.len() ==> equivalent((#[trigger] x[i]).0, y[i].0) && x[i].1.len()
            == y[i].1.len()
    &&& forall|i: int, j: int|
        0 <= i < x.len() && 0 <= j < x[i].1.len() ==> (#[trigger] x[i].1[j])@ == y[i].1[j]@
}

/// The two report the same: the same metrics and labels, in the same order, and the same numbers
/// for each.
pub open spec fn same_report<Metric: PartialOrd>(
    a: Seq<(Metric, MetricSummary)>,
    b: Seq<(Metric, MetricSummary)>,
) -> bool {
    &&& keys_alike(summary_keys(a), summary_keys(b))
    &&& forall|i: int| 0 <= i < a.len() ==> (#[trigger] a[i]).1.invocations == b[i].1.invocations
    &&& forall|i: int, j: int|
        0 <= i < a.len() && 0 <= j < a[i].1.labels@.len() ==> same_stats(
            (#[trigger] a[i].1.labels@[j]).1,
            b[i].1.labels@[j].1,
        )
}

/// How the measurements of different metrics and labels interleave does not matter: what is
/// reported of a metric and a label depends on its own measurements alone.
pub proof fn lemma_interleaving_does_not_matter<Metric: PartialOrd>(
    a: Seq<(Metric, MetricSummary)>,
    b: Seq<(Metric, MetricSummary)>,
    taken: Seq<Taken<Metric>>,
    otherwise: Seq<Taken<Metric>>,
)
    requires
        total_order::<Metric>(),
        measured_alike(taken, otherwise),
        summarizes(a, taken),
        summarizes(b, otherwise),
    ensures
        same_report(a, b),
{
    let (x, y) = (summary_keys(a), summary_keys(b));
    assert forall|metric: Metric, label: Label|
        (#[trigger] nanos_for(taken, metric, label)).len() > 0 <==> nanos_for(
            otherwise,
            metric,
            label,
        ).len() > 0 by {
        assert(nanos_for(taken, metric, label) == nanos_for(otherwise, metric, label));
    }
    lemma_keys_are_alike(x, y, taken, otherwise);
    assert forall|i: int, j: int| 0 <= i < a.len() && 0 <= j < a[i].1.labels@.len() implies nanos_for(
        taken,
        x[i].0,
        #[trigger] x[i].1[j],
    ) == nanos_for(otherwise, y[i].0, y[i].1[j]) by {
        assert(equivalent(x[i].0, y[i].0));
        assert(x[i].1[j]@ == y[i].1[j]@);
        assert(nanos_for(taken, x[i].0, x[i].1[j]) == nanos_for(otherwise, x[i].0, x[i].1[j]));
        lemma_nanos_of_equivalent(otherwise, x[i].0, x[i].1[j], y[i].0, y[i].1[j]);
    }
    assert forall|i: int| 0 <= i < a.len() implies (#[trigger] a[i]).1.invocations
        == b[i].1.invocations by {
        assert(x[i].1.len() > 0);
        assert(equivalent(x[i].0, y[i].0));
        assert(a[i].1.summarizes(taken, a[i].0));
        assert(b[i].1.summarizes(otherwise, b[i].0));
        assert(nanos_for(taken, x[i].0, x[i].1[0]) == nanos_for(otherwise, y[i].0, y[i].1[0]));
    }
    assert forall|i: int, j: int| 0 <= i < a.len() && 0 <= j < a[i].1.labels@.len() implies same_stats(
        (#[trigger] a[i].1.labels@[j]).1,
        b[i].1.labels@[j].1,
    ) by {
        assert(equivalent(x[i].0, y[i].0));
        assert(a[i].1.summarizes(taken, a[i].0));
        assert(b[i].1.summarizes(otherwise, b[i].0));
        let nanos = nanos_for(taken, x[i].0, x[i].1[j]);
        assert(nanos == nanos_for(otherwise, y[i].0, y[i].1[j]));
        assert(a[i].1.labels@[j].1.describes(nanos));
        assert(b[i].1.labels@[j].1.describes(nanos));
        lemma_stats_are_determined(a[i].1.labels@[j].1, b[i].1.labels@[j].1, nanos);
    }
}

/// The keys of measurements are determined by them.
proof fn lemma_keys_are_determined<Metric: PartialOrd>(
    x: Keys<Metric>,
    y: Keys<Metric>,
    taken: Seq<Taken<Metric>>,
)
    requires
        total_order::<Metric>(),
        are_keys_of(x, taken),
        are_keys_of(y, taken),
    ensures
        x == y,
{
    lemma_keys_are_alike(x, y, taken, taken);
    assert forall|i: int| 0 <= i < x.len() implies x[i] == y[i] by {
        assert(equivalent(x[i].0, y[i].0));
        assert(is_first_metric(taken, x[i].0));
        assert(is_first_metric(taken, y[i].0));
        lemma_one_first_metric(taken, x[i].0, y[i].0);
        let (xs, ys) = (x[i].1, y[i].1);
        assert forall|j: int| 0 <= j < xs.len() implies xs[j] == ys[j] by {
            assert(x[i].1[j]@ == y[i].1[j]@);
            assert(is_first_label(taken, x[i].0, x[i].1[j]));
            assert(is_first_label(taken, y[i].0, y[i].1[j]));
            lemma_one_first_label(taken, x[i].0, xs[j], ys[j]);
        }
        assert(xs =~= ys);
    }
    assert(x =~= y);
}

/// The keys of measurements are alike where the same was measured.
pub proof fn lemma_keys_are_alike<Metric: PartialOrd>(
    x: Keys<Metric>,
    y: Keys<Metric>,
    a: Seq<Taken<Metric>>,
    b: Seq<Taken<Metric>>,
)
    requires
        total_order::<Metric>(),
        are_keys_of(x, a),
        are_keys_of(y, b),
        same_pairs_measured(a, b),
    ensures
        keys_alike(x, y),
{
    let xs = x.map_values(|e: (Metric, Seq<Label>)| e.0);
    let ys = y.map_values(|e: (Metric, Seq<Label>)| e.0);
    lemma_metrics_in_order(x);
    lemma_metrics_in_order(y);
    assert(same_pairs_measured(b, a));
    assert forall|i: int| 0 <= i < xs.len() implies has_equivalent(ys, #[trigger] xs[i]) by {
        lemma_metric_is_there(x, y, a, b, i);
    }
    assert forall|i: int| 0 <= i < ys.len() implies has_equivalent(xs, #[trigger] ys[i]) by {
        lemma_metric_is_there(y, x, b, a, i);
    }
    lemma_same_in_order(xs, ys);
    assert forall|i: int| 0 <= i < x.len() implies equivalent((#[trigger] x[i]).0, y[i].0) by {
        assert(equivalent(xs[i], ys[i]));
    }
    assert forall|i: int| 0 <= i < x.len() implies (#[trigger] x[i]).1.len() == y[i].1.len() by {
        lemma_labels_are_alike(x, y, a, b, i);
    }
    assert forall|i: int, j: int| 0 <= i < x.len() && 0 <= j < x[i].1.len() implies (
    #[trigger] x[i].1[j])@ == y[i].1[j]@ by {
        lemma_labels_are_alike(x, y, a, b, i);
    }
}

/// The labels of a metric are alike where the same was measured.
proof fn lemma_labels_are_alike<Metric: PartialOrd>(
    x: Keys<Metric>,
    y: Keys<Metric>,
    a: Seq<Taken<Metric>>,
    b: Seq<Taken<Metric>>,
    i: int,
)
    requires
        total_order::<Metric>(),
        are_keys_of(x, a),
        are_keys_of(y, b),
        same_pairs_measured(a, b),
        0 <= i < x.len(),
        i < y.len(),
        equivalent(x[i].0, y[i].0),
    ensures
        x[i].1.len() == y[i].1.len(),
        forall|j: int| 0 <= j < x[i].1.len() ==> (#[trigger] x[i].1[j])@ == y[i].1[j]@,
{
    lemma_labels_are_totally_ordered();
    let (xs, ys) = (x[i].1, y[i].1);
    assert forall|p: int, q: int| 0 <= p < q < xs.len() implies #[trigger] precedes(xs[p], xs[q]) by {
        assert(precedes(x[i].1[p], x[i].1[q]));
    }
    assert forall|p: int, q: int| 0 <= p < q < ys.len() implies #[trigger] precedes(ys[p], ys[q]) by {
        assert(precedes(y[i].1[p], y[i].1[q]));
    }
    assert(equivalent(y[i].0, x[i].0));
    assert forall|j: int| 0 <= j < xs.len() implies has_equivalent(ys, #[trigger] xs[j]) by {
        lemma_label_is_there(x, y, a, b, i, j);
    }
    assert(same_pairs_measured(b, a));
    assert forall|j: int| 0 <= j < ys.len() implies has_equivalent(xs, #[trigger] ys[j]) by {
        lemma_label_is_there(y, x, b, a, i, j);
    }
    lemma_same_in_order(xs, ys);
    assert forall|j: int| 0 <= j < x[i].1.len() implies (#[trigger] x[i].1[j])@ == y[i].1[j]@ by {
        assert(equivalent(xs[j], ys[j]));
    }
}

/// Some element of `among` is equivalent to `value`.
#[verifier::opaque]
spec fn has_equivalent<T: PartialOrd>(among: Seq<T>, value: T) -> bool {
    exists|j: int| 0 <= j < among.len() && equivalent(value, #[trigger] among[j])
}

/// Each element stands before the ones after it.
spec fn in_order<T: PartialOrd>(s: Seq<T>) -> bool {
    forall|i: int, j: int| 0 <= i < j < s.len() ==> #[trigger] precedes(s[i], s[j])
}

/// The metrics among keys that are in order are in order.
proof fn lemma_metrics_in_order<Metric: PartialOrd>(keys: Keys<Metric>)
    requires
        keys_in_order(keys),
    ensures
        in_order(keys.map_values(|e: (Metric, Seq<Label>)| e.0)),
{
    let metrics = keys.map_values(|e: (Metric, Seq<Label>)| e.0);
    assert forall|i: int, j: int| 0 <= i < j < metrics.len() implies #[trigger] precedes(
        metrics[i],
        metrics[j],
    ) by {
        assert(precedes(keys[i].0, keys[j].0));
    }
}

/// Where there are nanoseconds for a metric and a label, there is a measurement that belongs there.
proof fn lemma_find_measurement<Metric: PartialOrd>(
    taken: Seq<Taken<Metric>>,
    metric: Metric,
    label: Label,
) -> (n: int)
    requires
        nanos_for(taken, metric, label).len() > 0,
    ensures
        0 <= n < taken.len(),
        belongs(taken[n], metric, label),
{
    if forall|n: int| 0 <= n < taken.len() ==> !belongs(#[trigger] taken[n], metric, label) {
        lemma_no_nanos(taken, metric, label);
    }
    choose|n: int| 0 <= n < taken.len() && belongs(#[trigger] taken[n], metric, label)
}

/// A metric that one of the measurements `a` was taken for is among the keys of `b`.
proof fn lemma_metric_is_there<Metric: PartialOrd>(
    x: Keys<Metric>,
    y: Keys<Metric>,
    a: Seq<Taken<Metric>>,
    b: Seq<Taken<Metric>>,
    i: int,
)
    requires
        total_order::<Metric>(),
        are_keys_of(x, a),
        are_keys_of(y, b),
        same_pairs_measured(a, b),
        0 <= i < x.len(),
    ensures
        has_equivalent(y.map_values(|e: (Metric, Seq<Label>)| e.0), x[i].0),
{
    let ys = y.map_values(|e: (Metric, Seq<Label>)| e.0);
    assert(is_first_metric(a, x[i].0));
    let n = lemma_find_first_metric(a, x[i].0);
    let (metric, label) = (a[n].1, a[n].0);
    assert(equivalent(metric, metric));
    lemma_nanos_hold(a, metric, label, n);
    assert(nanos_for(a, metric, label).len() > 0);
    let k = lemma_find_measurement(b, metric, label);
    assert(has_key(y, b[k].1, b[k].0));
    let (p, q) = lemma_find_key(y, b[k].1, b[k].0);
    assert(equivalent(metric, b[k].1));
    assert(equivalent(x[i].0, ys[p]));
    reveal(has_equivalent);
}

/// A label that one of the measurements `a` was taken for is among the keys of `b`, under the same
/// metric.
proof fn lemma_label_is_there<Metric: PartialOrd>(
    x: Keys<Metric>,
    y: Keys<Metric>,
    a: Seq<Taken<Metric>>,
    b: Seq<Taken<Metric>>,
    i: int,
    j: int,
)
    requires
        total_order::<Metric>(),
        are_keys_of(x, a),
        are_keys_of(y, b),
        same_pairs_measured(a, b),
        0 <= i < x.len(),
        i < y.len(),
        equivalent(x[i].0, y[i].0),
        0 <= j < x[i].1.len(),
    ensures
        has_equivalent(y[i].1, x[i].1[j]),
{
    let (metric, label) = (x[i].0, x[i].1[j]);
    assert(is_first_label(a, x[i].0, x[i].1[j]));
    let n = lemma_find_first_label(a, metric, label);
    lemma_nanos_hold(a, metric, label, n);
    assert(nanos_for(a, metric, label).len() > 0);
    let k = lemma_find_measurement(b, metric, label);
    let m = b[k].1;
    assert(has_key(y, b[k].1, b[k].0));
    let (p, q) = lemma_find_key(y, m, b[k].0);
    assert(equivalent(m, y[i].0));
    assert(equivalent(y[i].0, m));
    assert(equivalent(y[i].0, y[p].0));
    assert(equivalent(y[p].0, y[i].0));
    if p < i {
        assert(precedes(y[p].0, y[i].0));
    } else if i < p {
        assert(precedes(y[i].0, y[p].0));
    }
    assert(equivalent(label, y[i].1[q]));
    reveal(has_equivalent);
}

/// The first of a metric has a place.
pub proof fn lemma_find_first_metric<Metric: PartialOrd>(taken: Seq<Taken<Metric>>, metric: Metric) -> (n:
    int)
    requires
        is_first_metric(taken, metric),
    ensures
        first_metric_at(taken, metric, n),
{
    reveal(is_first_metric);
    choose|n: int| #[trigger] first_metric_at(taken, metric, n)
}

/// The first of a label has a place.
pub proof fn lemma_find_first_label<Metric: PartialOrd>(
    taken: Seq<Taken<Metric>>,
    metric: Metric,
    label: Label,
) -> (n: int)
    requires
        is_first_label(taken, metric, label),
    ensures
        first_label_at(taken, metric, label, n),
{
    reveal(is_first_label);
    choose|n: int| #[trigger] first_label_at(taken, metric, label, n)
}

/// Of equivalent metrics one is the first.
proof fn lemma_one_first_metric<Metric: PartialOrd>(taken: Seq<Taken<Metric>>, a: Metric, b: Metric)
    requires
        total_order::<Metric>(),
        is_first_metric(taken, a),
        is_first_metric(taken, b),
        equivalent(a, b),
    ensures
        a == b,
{
    let n = lemma_find_first_metric(taken, a);
    let m = lemma_find_first_metric(taken, b);
    assert(equivalent(b, a));
    if n < m {
        assert(!equivalent(taken[n].1, b));
    } else if m < n {
        assert(!equivalent(taken[m].1, a));
    }
}

/// Of equal labels one is the first.
proof fn lemma_one_first_label<Metric: PartialOrd>(
    taken: Seq<Taken<Metric>>,
    metric: Metric,
    a: Label,
    b: Label,
)
    requires
        is_first_label(taken, metric, a),
        is_first_label(taken, metric, b),
        equivalent(a, b),
    ensures
        a == b,
{
    let n = lemma_find_first_label(taken, metric, a);
    let m = lemma_find_first_label(taken, metric, b);
    assert(a@ == b@);
    if n < m {
        assert(!belongs(taken[n], metric, b));
    } else if m < n {
        assert(!belongs(taken[m], metric, a));
    }
}

/// Two increasing sequences with equivalent elements are equivalent place by place.
proof fn lemma_same_in_order<T: PartialOrd>(x: Seq<T>, y: Seq<T>)
    requires
        total_order::<T>(),
        in_order(x),
        in_order(y),
        forall|i: int| 0 <= i < x.len() ==> has_equivalent(y, #[trigger] x[i]),
        forall|i: int| 0 <= i < y.len() ==> has_equivalent(x, #[trigger] y[i]),
    ensures
        x.len() == y.len(),
        forall|i: int| 0 <= i < x.len() ==> #[trigger] equivalent(x[i], y[i]),
    decreases x.len(),
{
    if x.len() == 0 {
        if y.len() > 0 {
            assert(has_equivalent(x, y[0]));
            reveal(has_equivalent);
        }
    } else {
        assert(has_equivalent(y, x[x.len() - 1]));
        if y.len() == 0 {
            reveal(has_equivalent);
        }
        let (u, v) = (x.drop_last(), y.drop_last());
        lemma_last_are_equivalent(x, y);
        assert forall|i: int, j: int| 0 <= i < j < u.len() implies #[trigger] precedes(u[i], u[j]) by {
            assert(precedes(x[i], x[j]));
        }
        assert forall|i: int, j: int| 0 <= i < j < v.len() implies #[trigger] precedes(v[i], v[j]) by {
            assert(precedes(y[i], y[j]));
        }
        assert forall|i: int| 0 <= i < u.len() implies has_equivalent(v, #[trigger] u[i]) by {
            lemma_not_the_last(x, y, i);
        }
        assert forall|i: int| 0 <= i < v.len() implies has_equivalent(u, #[trigger] v[i]) by {
            assert(equivalent(y.last(), x.last()));
            lemma_not_the_last(y, x, i);
        }
        lemma_same_in_order(u, v);
        assert forall|i: int| 0 <= i < x.len() implies #[trigger] equivalent(x[i], y[i]) by {
            if i < u.len() {
                assert(equivalent(u[i], v[i]));
            }
        }
    }
}

/// The last elements of two increasing sequences with equivalent elements are equivalent.
proof fn lemma_last_are_equivalent<T: PartialOrd>(x: Seq<T>, y: Seq<T>)
    requires
        total_order::<T>(),
        in_order(x),
        in_order(y),
        x.len() > 0,
        y.len() > 0,
        has_equivalent(y, x.last()),
        has_equivalent(x, y.last()),
    ensures
        equivalent(x.last(), y.last()),
{
    reveal(has_equivalent);
    let (a, b) = (x.last(), y.last());
    let k = choose|k: int| 0 <= k < y.len() && equivalent(a, #[trigger] y[k]);
    let m = choose|m: int| 0 <= m < x.len() && equivalent(b, #[trigger] x[m]);
    if k < y.len() - 1 && m < x.len() - 1 {
        assert(precedes(y[k], y[y.len() - 1]));
        assert(precedes(x[m], x[x.len() - 1]));
        assert(precedes(a, b));
        assert(precedes(b, a));
    } else if k < y.len() - 1 {
        assert(equivalent(a, b));
    }
}

/// What stands before the last element is not equivalent to it.
proof fn lemma_not_the_last<T: PartialOrd>(x: Seq<T>, y: Seq<T>, i: int)
    requires
        total_order::<T>(),
        in_order(x),
        0 <= i < x.len() - 1,
        y.len() > 0,
        equivalent(x.last(), y.last()),
        has_equivalent(y, x[i]),
    ensures
        has_equivalent(y.drop_last(), x[i]),
{
    reveal(has_equivalent);
    let k = choose|k: int| 0 <= k < y.len() && equivalent(x[i], #[trigger] y[k]);
    assert(precedes(x[i], x[x.len() - 1]));
    if k == y.len() - 1 {
        assert(precedes(x[i], y.last()));
    }
    assert(y.drop_last()[k] == y[k]);
}

} // verus!
