//! The channel that carries measurements to where they are collected.
use vstd::prelude::*;

use crate::collect::Measurement;
use crate::ends::{receive_all, send, unbounded, Inlet, Received, Refused, Sent};

verus! {

/// Opens the channel that measurements travel on, and hands out the end that they are sent to and
/// the end that they are collected from.
pub fn open<Metric>() -> (ends: (Inlet<Metric>, flume::Receiver<Measurement<Metric>>))
    ensures
        ends.0.outlet() == ends.1,
{
    unbounded()
}

/// Sends `measurement` to `target`, for a receipt. If nobody is there to receive it, it is handed
/// back.
pub fn deliver<Metric>(target: &Inlet<Metric>, measurement: Measurement<Metric>) -> (r: Result<
    Sent<Metric>,
    Refused<Metric>,
>)
    ensures
        match r {
            Ok(sent) => sent.target() == *target && sent.measurement() == measurement,
            Err(refused) => refused.target() == *target && refused.measurement() == measurement,
        },
{
    send(target, measurement)
}

/// Waits for all measurements that come out of `source`, until nobody is left to send any.
pub fn receive<Metric>(source: &flume::Receiver<Measurement<Metric>>) -> (r: (
    Vec<Measurement<Metric>>,
    Received<Metric>,
))
    ensures
        r.1.source() == *source,
        r.1.measurements() == r.0@,
{
    receive_all(source)
}

} // verus!
