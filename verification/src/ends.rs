//! The two ends of a channel, and receipts for what goes through it.
//!
//! An [`Inlet`] and the receipts can be had only from the functions of this module that call
//! `flume`: whoever holds one has had the channel opened, used or emptied.
use vstd::prelude::*;

use crate::collect::Measurement;

verus! {

/// The sending end of a channel of `flume`.
#[verifier::external_type_specification]
#[verifier::external_body]
#[verifier::reject_recursive_types(T)]
pub struct ExSender<T>(flume::Sender<T>);

/// The receiving end of a channel of `flume`.
#[verifier::external_type_specification]
#[verifier::external_body]
#[verifier::reject_recursive_types(T)]
pub struct ExReceiver<T>(flume::Receiver<T>);

/// The end of a channel that measurements are sent to.
#[verifier::reject_recursive_types(Metric)]
pub struct Inlet<Metric> {
    sender: flume::Sender<Measurement<Metric>>,
    outlet: Ghost<flume::Receiver<Measurement<Metric>>>,
}

impl<Metric> Inlet<Metric> {
    /// The end that the measurements are collected from: the one that was opened with this end.
    pub closed spec fn outlet(self) -> flume::Receiver<Measurement<Metric>> {
        self.outlet@
    }
}

impl<Metric> Clone for Inlet<Metric> {
    fn clone(&self) -> (clone: Self)
        ensures
            clone == *self,
    {
        Inlet { sender: clone_sender(&self.sender), outlet: Ghost(self.outlet@) }
    }
}

/// The receipt for a measurement that a channel took.
#[verifier::reject_recursive_types(Metric)]
pub struct Sent<Metric> {
    target: Ghost<Inlet<Metric>>,
    measurement: Ghost<Measurement<Metric>>,
}

impl<Metric> Sent<Metric> {
    /// The end of the channel that the measurement was sent to.
    pub closed spec fn target(self) -> Inlet<Metric> {
        self.target@
    }

    /// The measurement that was sent.
    pub closed spec fn measurement(self) -> Measurement<Metric> {
        self.measurement@
    }
}

/// A measurement that a channel refused, because nobody is left to receive it.
#[verifier::reject_recursive_types(Metric)]
pub struct Refused<Metric> {
    target: Ghost<Inlet<Metric>>,
    measurement: Measurement<Metric>,
}

impl<Metric> Refused<Metric> {
    /// The end of the channel that the measurement was handed to.
    pub closed spec fn target(self) -> Inlet<Metric> {
        self.target@
    }

    /// The measurement that was not sent.
    pub closed spec fn measurement(self) -> Measurement<Metric> {
        self.measurement
    }

    /// The measurement that was not sent.
    pub fn into_measurement(self) -> (measurement: Measurement<Metric>)
        ensures
            measurement == self.measurement(),
    {
        self.measurement
    }
}

/// The receipt for all that came out of a channel until it was closed.
#[verifier::reject_recursive_types(Metric)]
pub struct Received<Metric> {
    source: Ghost<flume::Receiver<Measurement<Metric>>>,
    measurements: Ghost<Seq<Measurement<Metric>>>,
}

impl<Metric> Received<Metric> {
    /// The end of the channel that the measurements came out of.
    pub closed spec fn source(self) -> flume::Receiver<Measurement<Metric>> {
        self.source@
    }

    /// What came out, in the order in which it came.
    pub closed spec fn measurements(self) -> Seq<Measurement<Metric>> {
        self.measurements@
    }
}

/// Calls [`flume::unbounded`], which opens a channel without a limit to what it holds, and returns
/// the two ends of that one channel.
#[verifier::external_body]
pub(crate) fn unbounded<Metric>() -> (ends: (Inlet<Metric>, flume::Receiver<Measurement<Metric>>))
    ensures
        ends.0.outlet() == ends.1,
{
    let (sender, receiver) = flume::unbounded();
    (Inlet { sender, outlet: Ghost(receiver) }, receiver)
}

/// Calls [`flume::Sender::send`]. It succeeds when the channel took the measurement, which the
/// receipt says. It fails when every receiver is gone, which is not up to the sender; what failed to
/// be sent is then handed back as it was, with the end that refused it.
#[verifier::external_body]
pub(crate) fn send<Metric>(target: &Inlet<Metric>, measurement: Measurement<Metric>) -> (r: Result<
    Sent<Metric>,
    Refused<Metric>,
>)
    ensures
        match r {
            Ok(sent) => sent.target() == *target && sent.measurement() == measurement,
            Err(refused) => refused.target() == *target && refused.measurement() == measurement,
        },
{
    let sent = Sent { target: Ghost(*target), measurement: Ghost(measurement) };
    match target.sender.send(measurement) {
        Ok(()) => Ok(sent),
        Err(error) => Err(Refused { target: Ghost(*target), measurement: error.into_inner() }),
    }
}

/// Calls [`flume::Receiver::iter`], which waits for measurements until every sender is gone, and
/// lists them in the order in which they came. What comes is up to the senders, so nothing is
/// claimed of it but that the receipt lists the same, and names the receiver that was read.
#[verifier::external_body]
pub(crate) fn receive_all<Metric>(source: &flume::Receiver<Measurement<Metric>>) -> (r: (
    Vec<Measurement<Metric>>,
    Received<Metric>,
))
    ensures
        r.1.source() == *source,
        r.1.measurements() == r.0@,
{
    let received: Vec<Measurement<Metric>> = source.iter().collect();
    let receipt = Received { source: Ghost(*source), measurements: Ghost(received@) };
    (received, receipt)
}

/// Calls the `clone` of [`flume::Sender`]: the result is a handle of the same channel, and so is
/// not told apart from the handle that was cloned.
#[verifier::external_body]
fn clone_sender<Metric>(sender: &flume::Sender<Measurement<Metric>>) -> (clone: flume::Sender<
    Measurement<Metric>,
>)
    ensures
        clone == *sender,
{
    sender.clone()
}

} // verus!
