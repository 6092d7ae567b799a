use timings::cores::{assign_cores, core_assignments};
use timings::sync::{
    known_target, must_spin, nanos_since_epoch, ParkState, StartTimedOut, SPIN_NANOS,
};
use timings::{StartTimeout, ThreadSync};

fn sync() -> ThreadSync {
    ThreadSync::new(StartTimeout {
        secs: 1,
        subsec_nanos: 5,
    })
}

#[test]
fn a_new_synchronization_waits_for_nothing() {
    let sync = sync();
    assert_eq!(sync.parked_threads, ParkState::default());
    assert_eq!((sync.countdown, sync.spinlock_target), (0, 0));
    assert_eq!(sync.thread_start_timeout.subsec_nanos, 5);
    assert!(sync.all_parked());
}

#[test]
fn threads_are_signaled_once_all_have_arrived() {
    let mut sync = sync();
    let mut first = sync.new_signal();
    let mut second = sync.new_signal();
    assert_eq!(sync.parked_threads.expected, 2);
    assert!(!sync.all_parked());
    first.wait(&mut sync);
    assert!(first.started && !second.started);
    assert!(!sync.all_parked());
    assert_eq!(sync.signal_threads(true), Err(StartTimedOut));
    assert_eq!(sync.countdown, 0);
    second.wait(&mut sync);
    assert!(sync.all_parked());
    assert_eq!(sync.signal_threads(false), Ok(()));
    assert_eq!(sync.countdown, 2);
}

#[test]
fn the_last_thread_to_wake_up_fixes_the_target() {
    let mut sync = sync();
    let mut signals = vec![sync.new_signal(), sync.new_signal(), sync.new_signal()];
    for signal in &mut signals {
        signal.wait(&mut sync);
    }
    assert_eq!(sync.signal_threads(false), Ok(()));
    assert!(!signals[1].wake(&mut sync));
    assert!(!signals[0].wake(&mut sync));
    assert_eq!(known_target(sync.spinlock_target), None);
    assert!(signals[2].wake(&mut sync));
    assert_eq!(sync.publish_target(7), 100_007);
    assert_eq!(known_target(sync.spinlock_target), Some(100_007));
    assert_eq!(SPIN_NANOS, 100_000);
}

#[test]
fn a_signal_given_up_is_not_waited_for() {
    let mut sync = sync();
    let before = sync;
    let unused = sync.new_signal();
    unused.retire(&mut sync);
    assert_eq!(sync, before);

    let mut used = sync.new_signal();
    used.wait(&mut sync);
    let before = sync;
    used.retire(&mut sync);
    assert_eq!(sync, before);
    assert_eq!(sync.parked_threads, ParkState { expected: 1, parked: 1 });
}

#[test]
fn threads_spin_past_the_target() {
    assert!(must_spin(9, 10));
    assert!(must_spin(10, 10));
    assert!(!must_spin(11, 10));
    assert_eq!(nanos_since_epoch(u128::from(u64::MAX)), Some(u64::MAX));
    assert_eq!(nanos_since_epoch(u128::from(u64::MAX) + 1), None);
}

#[test]
fn cores_are_handed_out_in_turn() {
    assert_eq!(
        assign_cores(Some(vec![4, 2, 9]), 5),
        vec![Some(4), Some(2), Some(9), Some(4), Some(2)]
    );
    assert_eq!(assign_cores(Some(vec![4, 2, 9]), 0), Vec::<Option<usize>>::new());
    assert_eq!(assign_cores(Some(Vec::new()), 2), vec![None, None]);
    assert_eq!(assign_cores(None, 2), vec![None, None]);
}

#[test]
fn the_cores_of_this_machine_are_assigned() {
    let ids = core_affinity::get_core_ids().map(|ids| ids.iter().map(|core| core.id).collect());
    assert_eq!(core_assignments(9).0, assign_cores(ids, 9));
}

#[test]
fn threads_have_cores_of_their_own_as_far_as_there_are_enough() {
    let cores = core_affinity::get_core_ids().map_or(0, |ids| ids.len());
    let assigned = core_assignments(cores).0;
    assert_eq!(assigned.len(), cores);
    for first in 0..cores {
        for second in first + 1..cores {
            assert_ne!(assigned[first], assigned[second]);
        }
    }
}

#[test]
fn signaled_threads_go_on_after_three_turns_each() {
    let mut sync = sync();
    let mut first = sync.new_signal();
    let mut second = sync.new_signal();
    first.wait(&mut sync);
    second.wait(&mut sync);
    assert_eq!(sync.signal_threads(false), Ok(()));
    assert!(!first.wake(&mut sync));
    assert!(second.wake(&mut sync));
    let target = sync.publish_target(1);
    assert_eq!(known_target(sync.spinlock_target), Some(target));
    assert!(!must_spin(u128::from(target) + 1, target));
    assert_eq!((sync.countdown, target), (0, 100_001));
}
