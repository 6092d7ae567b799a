use timings::timing::{claim, finished};
use timings::{
    stats_thread, FinishError, Label, LabeledTimings, Measurement, Timings, WaitError,
};

fn channel() -> (
    Timings<&'static str, u32>,
    flume::Receiver<Measurement<&'static str>>,
) {
    let (sender, receiver) = timings::channel::open();
    (Timings::new(sender, 17), receiver)
}

#[test]
fn a_finished_timing_is_sent() {
    let (timings, receiver) = channel();
    let timing = timings.begin("backend a", "step 1", 1_000);
    assert!(receiver.try_recv().is_err());
    assert!(timing.finish(1_250).is_ok());
    let sent = receiver.try_recv().unwrap();
    assert_eq!(sent.label.to_string(), "backend a");
    assert_eq!(sent.metric, "step 1");
    assert_eq!(sent.nanos, 250);
    assert!(receiver.try_recv().is_err());
}

#[test]
fn a_timing_is_begun_for_a_label() {
    let (timings, receiver) = channel();
    let label = Label::from(String::from("owned"));
    assert!(timings.begin_for(label, "m", 3).finish(5).is_ok());
    let sent = receiver.try_recv().unwrap();
    assert_eq!(sent.label.to_string(), "owned");
    assert_eq!((sent.metric, sent.nanos), ("m", 2));
}

#[test]
fn a_timing_may_take_no_time() {
    let (timings, receiver) = channel();
    assert!(timings.begin(String::from("l"), "m", 5).finish(5).is_ok());
    assert_eq!(receiver.try_recv().unwrap().nanos, 0);
}

#[test]
fn time_does_not_go_backwards() {
    let (timings, receiver) = channel();
    let timing = timings.begin("l", "m", 6);
    assert!(matches!(
        timing.finish(5),
        Err(FinishError::TimeWentBackwards)
    ));
    assert!(receiver.try_recv().is_err());
}

#[test]
fn a_timing_nobody_collects_is_handed_back() {
    let (timings, receiver) = channel();
    let timing = timings.begin("l", "m", 2);
    drop(receiver);
    match timing.finish(9) {
        Err(FinishError::Disconnected(refused)) => {
            let measurement = refused.into_measurement();
            assert_eq!(measurement.label.to_string(), "l");
            assert_eq!(measurement.metric, "m");
            assert_eq!(measurement.nanos, 7);
        }
        _ => panic!("nobody was there to collect"),
    }
}

#[test]
fn a_timing_ends_without_being_sent() {
    let (timings, receiver) = channel();
    assert!(matches!(
        timings.begin("l", "m", 2).measure(1),
        Err(FinishError::TimeWentBackwards)
    ));
    match timings.begin("l", "m", 2).measure(12) {
        Ok(measurement) => assert_eq!(measurement.nanos, 10),
        Err(_) => panic!("time went on"),
    }
    assert!(receiver.try_recv().is_err());
    assert!(finished::<(), u8>(Ok(())).is_ok());
    assert!(matches!(
        finished::<(), u8>(Err(3)),
        Err(FinishError::Disconnected(3))
    ));
}

#[test]
fn clones_send_to_the_same_channel() {
    let (timings, receiver) = channel();
    let clone = timings.clone();
    assert!(clone.begin("l", "m", 0).finish(3).is_ok());
    assert_eq!(receiver.try_recv().unwrap().nanos, 3);
}

#[test]
fn what_is_sent_comes_out_of_the_end_opened_with_it() {
    let (first, first_receiver) = channel();
    let (second, second_receiver) = channel();
    assert!(first.begin("l", "one", 0).finish(1).is_ok());
    assert!(second.clone().begin("l", "two", 0).finish(2).is_ok());
    assert_eq!(first_receiver.try_recv().unwrap().metric, "one");
    assert_eq!(second_receiver.try_recv().unwrap().metric, "two");
    assert!(first_receiver.try_recv().is_err());
    assert!(second_receiver.try_recv().is_err());
}

#[test]
fn labeled_timings_use_one_label() {
    let (timings, receiver) = channel();
    let labeled = LabeledTimings::new(Label::from("always"), timings);
    assert_eq!(labeled.label().to_string(), "always");
    assert!(labeled.begin("x", 1).finish(2).is_ok());
    assert!(labeled.clone().begin("y", 1).finish(3).is_ok());
    let (first, second) = (receiver.try_recv().unwrap(), receiver.try_recv().unwrap());
    assert_eq!((first.metric, first.nanos), ("x", 1));
    assert_eq!((second.metric, second.nanos), ("y", 2));
    assert!(first.label == second.label && first.label == Label::from("always"));
}

#[test]
fn only_one_clone_gets_the_summary() {
    let (timings, receiver) = channel();
    let clone = timings.clone();
    match timings.wait_for_stats() {
        Ok(claimed) => assert_eq!(claimed.into_handle(), 17),
        Err(_) => panic!("the handle was there"),
    }
    assert!(clone.begin("l", "m", 0).finish(1).is_ok());
    assert!(matches!(
        clone.wait_for_stats(),
        Err(WaitError::AlreadyCalled(_))
    ));
    // With the last clone gone, the channel is closed.
    assert_eq!(receiver.iter().count(), 1);
    assert!(matches!(claim::<u8, ()>(Ok(4)), Ok(4)));
    assert!(matches!(
        claim::<u8, u8>(Err(5)),
        Err(WaitError::AlreadyCalled(5))
    ));
}

#[test]
fn what_was_finished_is_summarized() {
    let (timings, receiver) = channel();
    let clone = timings.clone();
    assert!(clone.begin("a", "m", 10).finish(14).is_ok());
    assert!(timings.begin("a", "m", 0).finish(9).is_ok());
    assert!(clone.begin("b", "n", 1).finish(2).is_ok());
    drop(clone);
    assert!(timings.wait_for_stats().is_ok());
    let summaries = stats_thread(&receiver).0.unwrap();
    assert_eq!(summaries.len(), 2);
    assert_eq!((*summaries.key(0), *summaries.key(1)), ("m", "n"));
    let first = summaries.value(0);
    assert_eq!((first.invocations, first.labels.len()), (2, 1));
    let stats = first.labels.value(0);
    assert_eq!((stats.min, stats.max), (4, 9));
    assert_eq!((stats.average.total, stats.average.count), (13, 2));
    assert_eq!(stats.plottable_stats, vec![4, 9]);
    assert_eq!(summaries.value(1).labels.value(0).plottable_stats, vec![1]);
}
