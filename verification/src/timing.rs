//! Timings of metrics, from their beginning to the channel that collects them.
//!
//! Instants are nanoseconds on a clock that does not run backwards; whoever begins and finishes a
//! timing reads it.
use std::sync::Arc;
use vstd::prelude::*;
use vstd::std_specs::convert::IntoSpec;

use crate::channel::deliver;
use crate::collect::Measurement;
use crate::ends::{Inlet, Refused, Sent};
use crate::label::Label;
use crate::shared::{shared, take_shared, Claimed, Missed, Shared};

verus! {

/// Measures the time `Metric`s take to execute. `Handle` is what the summary of the measurements
/// is had from in the end.
#[verifier::reject_recursive_types(Metric)]
#[verifier::reject_recursive_types(Handle)]
pub struct Timings<Metric, Handle> {
    sender: Inlet<Metric>,
    stats_thread: Arc<Shared<Handle>>,
}

/// Why there is no summary to wait for.
#[derive(Debug)]
pub enum WaitError<Miss> {
    /// A clone of these timings waits for the summary, or has had it.
    AlreadyCalled(Miss),
}

/// What comes of a claim to the summary, given what was `found`.
pub open spec fn claim_result<Handle, Miss>(found: Result<Handle, Miss>) -> Result<
    Handle,
    WaitError<Miss>,
> {
    match found {
        Ok(handle) => Ok(handle),
        Err(miss) => Err(WaitError::AlreadyCalled(miss)),
    }
}

/// What comes of a claim to the summary, given what was `found`.
pub fn claim<Handle, Miss>(found: Result<Handle, Miss>) -> (r: Result<Handle, WaitError<Miss>>)
    ensures
        r == claim_result(found),
{
    match found {
        Ok(handle) => Ok(handle),
        Err(miss) => Err(WaitError::AlreadyCalled(miss)),
    }
}

impl<Metric, Handle> Timings<Metric, Handle> {
    /// The channel that measurements are sent to.
    pub closed spec fn target(self) -> Inlet<Metric> {
        self.sender
    }

    /// Where the handle of the summary is shared with the clones.
    pub closed spec fn stats(self) -> Arc<Shared<Handle>> {
        self.stats_thread
    }

    /// Timings that are sent to `sender`, and whose summary is had from `stats_thread`.
    pub fn new(sender: Inlet<Metric>, stats_thread: Handle) -> (timings: Self)
        ensures
            timings.target() == sender,
            timings.stats().handle() == stats_thread,
    {
        Timings { sender, stats_thread: Arc::new(shared(stats_thread)) }
    }

    /// Begins a [`Timing`] of `metric` for `label` at the instant `now`. Labels are used to group
    /// multiple invocations of `metric`. For example, if a benchmark is measuring 3 different
    /// crates, `label` could be the crate name and `metric` would be the operation being measured
    /// across the three crates.
    pub fn begin<L: Into<Label>>(&self, label: L, metric: Metric, now: u128) -> (timing: Timing<
        '_,
        Metric,
    >)
        ensures
            timing.target() == self.target(),
            L::obeys_into_spec() ==> timing.label() == label.into_spec(),
            timing.metric() == metric,
            timing.start() == now,
    {
        self.begin_for(label.into(), metric, now)
    }

    /// Begins a [`Timing`] of `metric` at the instant `now`, for what is a label already.
    pub fn begin_for(&self, label: Label, metric: Metric, now: u128) -> (timing: Timing<'_, Metric>)
        ensures
            timing.target() == self.target(),
            timing.label() == label,
            timing.metric() == metric,
            timing.start() == now,
    {
        Timing { target: &self.sender, label, metric, start: now }
    }

    /// Gives up sending and claims what the summary is had from: the handle that these timings and
    /// their clones share. Only one clone gets it; the others find that it is gone.
    pub fn wait_for_stats(self) -> (r: Result<Claimed<Handle>, WaitError<Missed<Handle>>>)
        ensures
            match r {
                Ok(claimed) => {
                    &&& claimed.source() == *self.stats()
                    &&& claimed.handle() == self.stats().handle()
                },
                Err(WaitError::AlreadyCalled(missed)) => missed.source() == *self.stats(),
            },
    {
        let found: Result<Claimed<Handle>, Missed<Handle>> = take_shared(&self.stats_thread);
        claim(found)
    }
}

impl<Metric, Handle> Clone for Timings<Metric, Handle> {
    fn clone(&self) -> (clone: Self)
        ensures
            clone.target() == self.target(),
            clone.stats() == self.stats(),
    {
        Timings { sender: self.sender.clone(), stats_thread: self.stats_thread.clone() }
    }
}

/// A [`Timings`] instance that uses the same label for all metrics measured.
#[verifier::reject_recursive_types(Metric)]
#[verifier::reject_recursive_types(Handle)]
pub struct LabeledTimings<Metric, Handle> {
    label: Label,
    timings: Timings<Metric, Handle>,
}

impl<Metric, Handle> LabeledTimings<Metric, Handle> {
    /// The label that all metrics are measured for.
    pub closed spec fn spec_label(self) -> Label {
        self.label
    }

    /// The timings behind.
    pub closed spec fn timings(self) -> Timings<Metric, Handle> {
        self.timings
    }

    /// Timings that all use `label`.
    pub fn new(label: Label, timings: Timings<Metric, Handle>) -> (labeled: Self)
        ensures
            labeled.spec_label() == label,
            labeled.timings() == timings,
    {
        LabeledTimings { label, timings }
    }

    /// The label that all metrics are measured for.
    pub fn label(&self) -> (label: &Label)
        ensures
            *label == self.spec_label(),
    {
        &self.label
    }

    /// Begins a [`Timing`] of `metric` at the instant `now`.
    pub fn begin(&self, metric: Metric, now: u128) -> (timing: Timing<'_, Metric>)
        ensures
            timing.target() == self.timings().target(),
            timing.label() == self.spec_label(),
            timing.metric() == metric,
            timing.start() == now,
    {
        Timing { target: &self.timings.sender, label: self.label.clone(), metric, start: now }
    }
}

impl<Metric, Handle> Clone for LabeledTimings<Metric, Handle> {
    fn clone(&self) -> (clone: Self)
        ensures
            clone.spec_label() == self.spec_label(),
            clone.timings().target() == self.timings().target(),
            clone.timings().stats() == self.timings().stats(),
    {
        LabeledTimings { label: self.label.clone(), timings: self.timings.clone() }
    }
}

/// An ongoing timing measurement of a `Metric`.
#[verifier::reject_recursive_types(Metric)]
pub struct Timing<'a, Metric> {
    target: &'a Inlet<Metric>,
    label: Label,
    metric: Metric,
    start: u128,
}

/// Why a timing could not be finished.
#[derive(Debug)]
pub enum FinishError<Refusal> {
    /// It ends before it began.
    TimeWentBackwards,
    /// Nobody collects measurements any more. This one was not sent.
    Disconnected(Refusal),
}

/// What comes of finishing a timing whose measurement was handed to the channel, given what came
/// of that.
pub fn finished<Receipt, Refusal>(sent: Result<Receipt, Refusal>) -> (r: Result<
    Receipt,
    FinishError<Refusal>,
>)
    ensures
        match sent {
            Ok(receipt) => r == Ok::<Receipt, FinishError<Refusal>>(receipt),
            Err(refusal) => r == Err::<Receipt, FinishError<Refusal>>(
                FinishError::Disconnected(refusal),
            ),
        },
{
    match sent {
        Ok(receipt) => Ok(receipt),
        Err(refusal) => Err(FinishError::Disconnected(refusal)),
    }
}

impl<'a, Metric> Timing<'a, Metric> {
    /// The channel that the measurement is sent to.
    pub closed spec fn target(self) -> Inlet<Metric> {
        *self.target
    }

    /// What the measurement is taken for.
    pub closed spec fn label(self) -> Label {
        self.label
    }

    /// What is measured.
    pub closed spec fn metric(self) -> Metric {
        self.metric
    }

    /// The instant at which the timing began.
    pub closed spec fn start(self) -> u128 {
        self.start
    }

    /// What the timing comes to, should it end at the instant `now`.
    pub open spec fn measured(self, now: u128) -> Measurement<Metric> {
        Measurement {
            label: self.label(),
            metric: self.metric(),
            nanos: (now - self.start()) as u128,
        }
    }

    /// Ends the timing at the instant `now`, without sending the measurement.
    pub fn measure(self, now: u128) -> (r: Result<
        Measurement<Metric>,
        FinishError<Refused<Metric>>,
    >)
        ensures
            r == (if now < self.start() {
                Err::<Measurement<Metric>, FinishError<Refused<Metric>>>(
                    FinishError::TimeWentBackwards,
                )
            } else {
                Ok::<Measurement<Metric>, FinishError<Refused<Metric>>>(self.measured(now))
            }),
            r matches Ok(measurement) ==> {
                &&& self.start() + measurement.nanos == now
                &&& measurement.label == self.label()
                &&& measurement.metric == self.metric()
            },
    {
        if now < self.start {
            Err(FinishError::TimeWentBackwards)
        } else {
            Ok(Measurement { label: self.label, metric: self.metric, nanos: now - self.start })
        }
    }

    /// Completes the measurement of this metric at the instant `now`: sends it to where it is
    /// collected, for a receipt.
    pub fn finish(self, now: u128) -> (r: Result<Sent<Metric>, FinishError<Refused<Metric>>>)
        ensures
            match r {
                Ok(sent) => {
                    &&& now >= self.start()
                    &&& sent.target() == self.target()
                    &&& sent.measurement() == self.measured(now)
                    &&& self.start() + sent.measurement().nanos == now
                    &&& sent.measurement().label == self.label()
                    &&& sent.measurement().metric == self.metric()
                },
                Err(FinishError::TimeWentBackwards) => now < self.start(),
                Err(FinishError::Disconnected(refused)) => {
                    &&& now >= self.start()
                    &&& refused.target() == self.target()
                    &&& refused.measurement() == self.measured(now)
                    &&& self.start() + refused.measurement().nanos == now
                    &&& refused.measurement().label == self.label()
                    &&& refused.measurement().metric == self.metric()
                },
            },
    {
        let target: &'a Inlet<Metric> = self.target;
        match self.measure(now) {
            Ok(measurement) => finished(deliver(target, measurement)),
            Err(error) => Err(error),
        }
    }
}

} // verus!
