//! What holds of timings from where they are finished to where their summary is had.
use vstd::prelude::*;

use crate::collect::{
    as_taken, belongs, collects, has_key, is_first_label, keys_in_order, lemma_find_key, nanos_for,
    summary_keys, CollectError, Measurement, MetricSummaries, MetricSummary, Taken,
};
use crate::collect_laws::{lemma_find_first_label, lemma_nanos_hold};
use crate::ends::{Received, Refused, Sent};
use crate::label::Label;
use crate::order::{equivalent, precedes, total_order};
use crate::received_laws::{fits, lemma_collects_what_fits};
use crate::stats::{
    is_maximum, is_minimum, lemma_order_does_not_matter, outliers, spread, sum, MetricStats,
};
use crate::timing::{claim_result, FinishError, LabeledTimings, Timing, Timings, WaitError};

verus! {

/// The measurements that the receipts are for.
pub open spec fn measurements_of<Metric>(sent: Seq<Sent<Metric>>) -> Seq<Measurement<Metric>> {
    sent.map_values(|receipt: Sent<Metric>| receipt.measurement())
}

/// What was received is what was sent to that channel: each measurement once, in whatever order. A
/// channel that was emptied until nobody was left to send to it sees to that.
pub open spec fn handed_over<Metric>(sent: Seq<Sent<Metric>>, received: Received<Metric>) -> bool {
    &&& forall|n: int|
        0 <= n < sent.len() ==> (#[trigger] sent[n]).target().outlet() == received.source()
    &&& received.measurements().to_multiset() == measurements_of(sent).to_multiset()
}

/// The statistics are those of the measurements `nanos`, whatever the order of these.
pub open spec fn reports(stats: MetricStats, nanos: Seq<u64>) -> bool {
    &&& stats.average.total == sum(nanos)
    &&& stats.average.count == nanos.len()
    &&& is_minimum(nanos, stats.min)
    &&& is_maximum(nanos, stats.max)
    &&& stats.stddev.spread@ == spread(nanos)
    &&& stats.stddev.count == nanos.len()
    &&& stats.plottable_stats@.to_multiset() == nanos.to_multiset()
    &&& stats.outliers@.to_multiset() == outliers(nanos).to_multiset()
}

/// The number of measurements that were taken for `metric`, whatever their label.
pub open spec fn entries<Metric: PartialOrd>(taken: Seq<Taken<Metric>>, metric: Metric) -> nat
    decreases taken.len(),
{
    if taken.len() == 0 {
        0
    } else {
        entries(taken.drop_last(), metric) + if equivalent(taken.last().1, metric) {
            1nat
        } else {
            0nat
        }
    }
}

/// The summaries report the measurements `taken`, whatever the order of these: each metric and
/// label that was measured, and no other, with the statistics of all its measurements. A metric with
/// one label has as many invocations as it was measured.
pub open spec fn reports_all<Metric: PartialOrd>(
    summaries: Seq<(Metric, MetricSummary)>,
    taken: Seq<Taken<Metric>>,
) -> bool {
    &&& keys_in_order(summary_keys(summaries))
    &&& forall|n: int|
        0 <= n < taken.len() ==> has_key(
            summary_keys(summaries),
            (#[trigger] taken[n]).1,
            taken[n].0,
        )
    &&& forall|i: int, j: int|
        0 <= i < summaries.len() && 0 <= j < summaries[i].1.labels@.len() ==> {
            let nanos = nanos_for(taken, summaries[i].0, summaries[i].1.labels@[j].0);
            nanos.len() > 0 && reports((#[trigger] summaries[i].1.labels@[j]).1, nanos)
        }
    &&& forall|i: int|
        0 <= i < summaries.len() && (#[trigger] summaries[i]).1.labels@.len() == 1
            ==> summaries[i].1.invocations == entries(taken, summaries[i].0)
}

/// What was finished is what is summarized: where the channel handed over all that timings sent to
/// it, from however many threads, the summary reports exactly that, none lost and none twice.
pub proof fn lemma_what_was_finished_is_summarized<Metric: PartialOrd>(
    sent: Seq<Sent<Metric>>,
    received: Received<Metric>,
    outcome: Result<MetricSummaries<Metric>, CollectError>,
)
    requires
        total_order::<Metric>(),
        handed_over(sent, received),
        fits(measurements_of(sent)),
        collects(received.measurements(), outcome),
    ensures
        outcome is Ok,
        reports_all(outcome->Ok_0@, as_taken(measurements_of(sent))),
{
    let (r, f) = (received.measurements(), measurements_of(sent));
    let (came, went) = (as_taken(r), as_taken(f));
    lemma_fits_reordered(f, r);
    lemma_collects_what_fits(r, outcome);
    let summaries = outcome->Ok_0@;
    let keys = summary_keys(summaries);
    assert forall|n: int| 0 <= n < went.len() implies has_key(
        keys,
        (#[trigger] went[n]).1,
        went[n].0,
    ) by {
        let k = lemma_place_otherwise(f, r, n);
        assert(went[n] == came[k]);
        assert(has_key(keys, came[k].1, came[k].0));
    }
    assert forall|i: int, j: int|
        0 <= i < summaries.len() && 0 <= j < summaries[i].1.labels@.len() implies ({
        let nanos = nanos_for(went, summaries[i].0, summaries[i].1.labels@[j].0);
        nanos.len() > 0 && reports((#[trigger] summaries[i].1.labels@[j]).1, nanos)
    }) by {
        let (metric, label) = (summaries[i].0, summaries[i].1.labels@[j].0);
        let (here, there) = (nanos_for(came, metric, label), nanos_for(went, metric, label));
        assert(summaries[i].1.summarizes(came, metric));
        assert(summaries[i].1.labels@[j].1.describes(here));
        assert(keys[i].1[j] == label);
        assert(is_first_label(came, keys[i].0, keys[i].1[j]));
        let n = lemma_find_first_label(came, metric, label);
        lemma_nanos_hold(came, metric, label, n);
        lemma_nanos_reordered(r, f, metric, label);
        lemma_order_does_not_matter(here, there);
    }
    assert forall|i: int|
        0 <= i < summaries.len() && (#[trigger] summaries[i]).1.labels@.len()
            == 1 implies summaries[i].1.invocations == entries(went, summaries[i].0) by {
        let (metric, label) = (summaries[i].0, summaries[i].1.labels@[0].0);
        assert(keys[i].1[0] == label);
        assert forall|n: int|
            0 <= n < went.len() && equivalent((#[trigger] went[n]).1, metric) implies went[n].0@
            == label@ by {
            assert(has_key(keys, went[n].1, went[n].0));
            let (p, q) = lemma_find_key(keys, went[n].1, went[n].0);
            assert(equivalent(metric, went[n].1));
            assert(equivalent(keys[i].0, keys[p].0));
            assert(equivalent(keys[p].0, keys[i].0));
            if p < i {
                assert(precedes(keys[p].0, keys[i].0));
            } else if i < p {
                assert(precedes(keys[i].0, keys[p].0));
            }
            assert(q == 0);
        }
        lemma_entries_of_one_label(went, metric, label);
        assert(summaries[i].1.summarizes(came, metric));
        lemma_nanos_reordered(r, f, metric, label);
        lemma_order_does_not_matter(
            nanos_for(came, metric, label),
            nanos_for(went, metric, label),
        );
    }
}

/// What one sequence holds, another with the same elements holds too.
proof fn lemma_place_otherwise<T>(a: Seq<T>, b: Seq<T>, n: int) -> (k: int)
    requires
        a.to_multiset() == b.to_multiset(),
        0 <= n < a.len(),
    ensures
        0 <= k < b.len(),
        b[k] == a[n],
{
    vstd::seq_lib::to_multiset_contains(a, a[n]);
    vstd::seq_lib::to_multiset_contains(b, a[n]);
    assert(a.contains(a[n]));
    choose|k: int| 0 <= k < b.len() && b[k] == a[n]
}

/// Whether measurements fit does not depend on their order.
proof fn lemma_fits_reordered<Metric: PartialOrd>(
    a: Seq<Measurement<Metric>>,
    b: Seq<Measurement<Metric>>,
)
    requires
        a.to_multiset() == b.to_multiset(),
        fits(a),
    ensures
        fits(b),
{
    assert forall|n: int| 0 <= n < b.len() implies (#[trigger] b[n]).nanos <= u64::MAX by {
        let k = lemma_place_otherwise(b, a, n);
        assert(a[k].nanos <= u64::MAX);
    }
    assert forall|metric: Metric, label: Label|
        sum(#[trigger] nanos_for(as_taken(b), metric, label)) <= u64::MAX by {
        lemma_nanos_reordered(a, b, metric, label);
        lemma_order_does_not_matter(
            nanos_for(as_taken(a), metric, label),
            nanos_for(as_taken(b), metric, label),
        );
        assert(sum(nanos_for(as_taken(a), metric, label)) <= u64::MAX);
    }
}

/// The nanoseconds for a metric and a label do not depend on the order of the measurements, but for
/// their own order.
proof fn lemma_nanos_reordered<Metric: PartialOrd>(
    a: Seq<Measurement<Metric>>,
    b: Seq<Measurement<Metric>>,
    metric: Metric,
    label: Label,
)
    requires
        a.to_multiset() == b.to_multiset(),
    ensures
        nanos_for(as_taken(a), metric, label).to_multiset() == nanos_for(
            as_taken(b),
            metric,
            label,
        ).to_multiset(),
    decreases a.len(),
{
    vstd::seq_lib::to_multiset_len(a);
    vstd::seq_lib::to_multiset_len(b);
    if a.len() == 0 {
        assert(a =~= b);
    } else {
        let last = a.len() - 1;
        let k = lemma_place_otherwise(a, b, last);
        vstd::seq_lib::to_multiset_remove(a, last);
        vstd::seq_lib::to_multiset_remove(b, k);
        lemma_nanos_reordered(a.remove(last), b.remove(k), metric, label);
        assert(as_taken(a.remove(last)) =~= as_taken(a).remove(last));
        assert(as_taken(b.remove(k)) =~= as_taken(b).remove(k));
        lemma_nanos_without(as_taken(a), last, metric, label);
        lemma_nanos_without(as_taken(b), k, metric, label);
        assert(as_taken(a)[last] == as_taken(b)[k]);
    }
}

/// Taking one measurement out takes out its nanoseconds where it belongs.
proof fn lemma_nanos_without<Metric: PartialOrd>(
    taken: Seq<Taken<Metric>>,
    k: int,
    metric: Metric,
    label: Label,
)
    requires
        0 <= k < taken.len(),
    ensures
        nanos_for(taken, metric, label).to_multiset() == (if belongs(taken[k], metric, label) {
            nanos_for(taken.remove(k), metric, label).to_multiset().insert(taken[k].2)
        } else {
            nanos_for(taken.remove(k), metric, label).to_multiset()
        }),
    decreases taken.len(),
{
    broadcast use vstd::seq_lib::group_to_multiset_ensures;

    let rest = taken.drop_last();
    if k == taken.len() - 1 {
        assert(taken.remove(k) =~= rest);
    } else {
        lemma_nanos_without(rest, k, metric, label);
        let without = taken.remove(k);
        assert(without.drop_last() =~= rest.remove(k));
        assert(without.last() == taken.last());
        let kept = nanos_for(rest.remove(k), metric, label).to_multiset();
        assert(kept.insert(taken[k].2).insert(taken.last().2) =~= kept.insert(
            taken.last().2,
        ).insert(taken[k].2));
    }
}

/// A metric with one label was measured as often as that label was measured for it.
proof fn lemma_entries_of_one_label<Metric: PartialOrd>(
    taken: Seq<Taken<Metric>>,
    metric: Metric,
    label: Label,
)
    requires
        forall|n: int|
            0 <= n < taken.len() && equivalent((#[trigger] taken[n]).1, metric) ==> taken[n].0@
                == label@,
    ensures
        entries(taken, metric) == nanos_for(taken, metric, label).len(),
    decreases taken.len(),
{
    if taken.len() > 0 {
        let rest = taken.drop_last();
        assert forall|n: int|
            0 <= n < rest.len() && equivalent((#[trigger] rest[n]).1, metric) implies rest[n].0@
            == label@ by {
            assert(rest[n] == taken[n]);
        }
        lemma_entries_of_one_label(rest, metric, label);
        assert(taken[taken.len() - 1] == taken.last());
    }
}

/// What successive claims find: `held` is what is shared before each claim and after the last. A
/// claim finds what is held, and leaves nothing.
pub open spec fn claimed_in_turn<Handle, Miss>(
    held: Seq<Option<Handle>>,
    found: Seq<Result<Handle, Miss>>,
) -> bool {
    &&& held.len() == found.len() + 1
    &&& forall|n: int|
        0 <= n < found.len() ==> held[n + 1] is None && match #[trigger] found[n] {
            Ok(handle) => held[n] == Some(handle),
            Err(_) => held[n] is None,
        }
}

/// Only one of the clones that claim the summary gets it: of claims that are made one after the other
/// on what was shared, the first gets the handle and every other is told that it came too late.
pub proof fn lemma_one_clone_gets_the_summary<Handle, Miss>(
    handle: Handle,
    held: Seq<Option<Handle>>,
    found: Seq<Result<Handle, Miss>>,
    n: int,
)
    requires
        held.len() > 0,
        held[0] == Some(handle),
        claimed_in_turn(held, found),
        0 <= n < found.len(),
    ensures
        n == 0 ==> claim_result(found[n]) == Ok::<Handle, WaitError<Miss>>(handle),
        n > 0 ==> claim_result(found[n]) is Err,
{
    if n > 0 {
        let before = found[n - 1];
        assert(held[n] is None);
    }
}

/// The time that elapsed is what is measured: from the instant at which a timing began to the one at
/// which it ends, for its own label and metric. Only a timing that ends before it began measures
/// nothing.
pub proof fn lemma_the_elapsed_time_is_measured<'a, Metric>(
    timing: Timing<'a, Metric>,
    now: u128,
    r: Result<Measurement<Metric>, FinishError<Refused<Metric>>>,
)
    requires
        call_ensures(Timing::<'a, Metric>::measure, (timing, now), r),
    ensures
        r is Ok <==> timing.start() <= now,
        r matches Ok(m) ==> timing.start() + m.nanos == now && m.label == timing.label() && m.metric
            == timing.metric(),
        r matches Err(e) ==> e is TimeWentBackwards,
{
}

/// What is handed to the channel when a timing is finished is the time that elapsed, for its own
/// label and metric, whether the channel takes it or not.
pub proof fn lemma_the_elapsed_time_is_sent<'a, Metric>(
    timing: Timing<'a, Metric>,
    now: u128,
    r: Result<Sent<Metric>, FinishError<Refused<Metric>>>,
)
    requires
        call_ensures(Timing::<'a, Metric>::finish, (timing, now), r),
    ensures
        now < timing.start() <==> r matches Err(FinishError::TimeWentBackwards),
        r matches Ok(sent) ==> {
            &&& sent.target() == timing.target()
            &&& timing.start() + sent.measurement().nanos == now
            &&& sent.measurement().label == timing.label()
            &&& sent.measurement().metric == timing.metric()
        },
        r matches Err(FinishError::Disconnected(refused)) ==> {
            &&& refused.target() == timing.target()
            &&& timing.start() + refused.measurement().nanos == now
            &&& refused.measurement().label == timing.label()
            &&& refused.measurement().metric == timing.metric()
        },
{
}

/// From where a timing begins to where it is finished: it measures what lies between the two
/// instants, for the label and the metric that it was begun with, and is sent to the channel of the
/// timings.
pub proof fn lemma_a_timing_from_begin_to_finish<'a, Metric, Handle>(
    timings: &'a Timings<Metric, Handle>,
    label: Label,
    metric: Metric,
    began: u128,
    timing: Timing<'a, Metric>,
    ended: u128,
    sent: Sent<Metric>,
)
    requires
        call_ensures(
            Timings::<Metric, Handle>::begin_for,
            (timings, label, metric, began),
            timing,
        ),
        call_ensures(
            Timing::<'a, Metric>::finish,
            (timing, ended),
            Ok::<Sent<Metric>, FinishError<Refused<Metric>>>(sent),
        ),
    ensures
        began <= ended,
        sent.measurement().nanos == ended - began,
        sent.measurement().label == label,
        sent.measurement().metric == metric,
        sent.target() == timings.target(),
{
}

/// Timings with a label of their own measure for that label what other timings measure for it.
pub proof fn lemma_labeled_timings_measure_for_their_label<'a, Metric, Handle>(
    label: Label,
    timings: Timings<Metric, Handle>,
    labeled: &'a LabeledTimings<Metric, Handle>,
    metric: Metric,
    began: u128,
    timing: Timing<'a, Metric>,
    ended: u128,
    r: Result<Measurement<Metric>, FinishError<Refused<Metric>>>,
)
    requires
        call_ensures(LabeledTimings::<Metric, Handle>::new, (label, timings), *labeled),
        call_ensures(
            LabeledTimings::<Metric, Handle>::begin,
            (labeled, metric, began),
            timing,
        ),
        call_ensures(Timing::<'a, Metric>::measure, (timing, ended), r),
    ensures
        timing.target() == timings.target(),
        r is Ok <==> began <= ended,
        r matches Ok(m) ==> m.nanos == ended - began && m.label == label && m.metric == metric,
{
}

} // verus!
