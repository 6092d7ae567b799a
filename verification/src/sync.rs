//! The synchronized start of threads.
//!
//! A [`ThreadSync`] is the state that the threads share; each thread holds a [`ThreadSignal`].
//! Whoever runs the threads keeps the state under a lock, blocks where a thread has to wait, and
//! reads the clock. What happens to the state, and what is to be done next, is decided here.
use vstd::prelude::*;

verus! {

/// How long the threads spin after the last of them has woken up, in nanoseconds. 100
/// microseconds is an eternity, since at that stage all the threads have unparked.
pub const SPIN_NANOS: u64 = 100_000;

/// A span of time to wait for threads to start.
#[derive(Clone, Copy, PartialEq, Eq, Structural, Debug)]
pub struct StartTimeout {
    /// Whole seconds.
    pub secs: u64,
    /// Nanoseconds beyond the whole seconds.
    pub subsec_nanos: u32,
}

/// How many threads there are to wait for, and how many have arrived.
#[derive(Clone, Copy, PartialEq, Eq, Structural, Debug)]
pub struct ParkState {
    /// The number of signals whose thread is to arrive or has arrived.
    pub expected: usize,
    /// The number of threads that have arrived.
    pub parked: usize,
}

impl Default for ParkState {
    fn default() -> (state: Self)
        ensures
            state.expected == 0,
            state.parked == 0,
    {
        ParkState { expected: 0, parked: 0 }
    }
}

/// Synchronizes multiple threads to ensure all waiting threads wake up as close to simultaneously
/// as possible.
#[derive(Clone, Copy, PartialEq, Eq, Structural, Debug)]
pub struct ThreadSync {
    /// The threads to wait for and those that have arrived.
    pub parked_threads: ParkState,
    /// The number of threads that were signaled and have not woken up yet.
    pub countdown: usize,
    /// The instant until which the threads spin, in nanoseconds; zero until it is known.
    pub spinlock_target: u64,
    /// How long to wait for threads to arrive.
    pub thread_start_timeout: StartTimeout,
}

/// A signal that attempts to wake up at the same time as all other signals.
#[derive(PartialEq, Eq, Structural, Debug)]
pub struct ThreadSignal {
    /// Whether the thread of this signal has begun to wait.
    pub started: bool,
}

/// Not all threads arrived in time.
#[derive(Clone, Copy, PartialEq, Eq, Structural, Debug)]
pub struct StartTimedOut;

impl ThreadSync {
    /// The state with one more signal to wait for.
    pub open spec fn with_signal(self) -> Self {
        ThreadSync {
            parked_threads: ParkState {
                expected: (self.parked_threads.expected + 1) as usize,
                parked: self.parked_threads.parked,
            },
            ..self
        }
    }

    /// The state with one signal less to wait for.
    pub open spec fn without_signal(self) -> Self {
        ThreadSync {
            parked_threads: ParkState {
                expected: (self.parked_threads.expected - 1) as usize,
                parked: self.parked_threads.parked,
            },
            ..self
        }
    }

    /// The state with one more thread arrived.
    pub open spec fn with_parked(self) -> Self {
        ThreadSync {
            parked_threads: ParkState {
                expected: self.parked_threads.expected,
                parked: (self.parked_threads.parked + 1) as usize,
            },
            ..self
        }
    }

    /// As many threads have arrived as there are signals.
    pub open spec fn complete(self) -> bool {
        self.parked_threads.parked >= self.parked_threads.expected
    }

    /// The state after the arrived threads were signaled to start.
    pub open spec fn signaled(self) -> Self {
        ThreadSync { countdown: self.parked_threads.parked, ..self }
    }

    /// The state after one of the signaled threads woke up.
    pub open spec fn woken(self) -> Self {
        ThreadSync { countdown: (self.countdown - 1) as usize, ..self }
    }

    /// The state after the last thread to wake up, at the instant `now`, has fixed until when to
    /// spin.
    pub open spec fn published(self, now: u64) -> Self {
        ThreadSync { spinlock_target: (now + SPIN_NANOS) as u64, ..self }
    }

    /// Returns a new instance, without any signal to wait for.
    pub fn new(thread_start_timeout: StartTimeout) -> (sync: Self)
        ensures
            sync.parked_threads.expected == 0,
            sync.parked_threads.parked == 0,
            sync.countdown == 0,
            sync.spinlock_target == 0,
            sync.thread_start_timeout == thread_start_timeout,
    {
        ThreadSync {
            parked_threads: ParkState::default(),
            countdown: 0,
            spinlock_target: 0,
            thread_start_timeout,
        }
    }

    /// Returns a new signal that will be started when [`Self::signal_threads`] is called. A clone
    /// of a signal is a new signal too, whether or not the cloned one has started.
    pub fn new_signal(&mut self) -> (signal: ThreadSignal)
        requires
            old(self).parked_threads.expected < usize::MAX,
        ensures
            *final(self) == old(self).with_signal(),
            !signal.started,
    {
        self.parked_threads.expected += 1;
        ThreadSignal { started: false }
    }

    /// Whether there is no thread left to wait for.
    pub fn all_parked(&self) -> (complete: bool)
        ensures
            complete == self.complete(),
            complete <==> self.parked_threads.parked >= self.parked_threads.expected,
    {
        self.parked_threads.parked >= self.parked_threads.expected
    }

    /// Signals all waiting threads to start simultaneously, once all have arrived. If the timeout
    /// elapsed before that, nothing is signaled and it can be tried again.
    pub fn signal_threads(&mut self, timed_out: bool) -> (r: Result<(), StartTimedOut>)
        requires
            timed_out || old(self).complete(),
        ensures
            r == (if timed_out {
                Err::<(), StartTimedOut>(StartTimedOut)
            } else {
                Ok::<(), StartTimedOut>(())
            }),
            *final(self) == (if timed_out {
                *old(self)
            } else {
                old(self).signaled()
            }),
    {
        if timed_out {
            return Err(StartTimedOut);
        }
        self.countdown = self.parked_threads.parked;
        Ok(())
    }

    /// Fixes until when to spin, on behalf of the last thread that woke up, at the instant `now`.
    pub fn publish_target(&mut self, now: u64) -> (target: u64)
        requires
            now + SPIN_NANOS <= u64::MAX,
        ensures
            *final(self) == old(self).published(now),
            target == now + SPIN_NANOS,
    {
        let target: u64 = now + SPIN_NANOS;
        self.spinlock_target = target;
        target
    }
}

impl ThreadSignal {
    /// The thread of this signal arrives and begins to wait for
    /// [`ThreadSync::signal_threads`]. It does so once.
    pub fn wait(&mut self, sync: &mut ThreadSync)
        requires
            !old(self).started,
            old(sync).parked_threads.parked < usize::MAX,
        ensures
            final(self).started,
            *final(sync) == old(sync).with_parked(),
    {
        sync.parked_threads.parked += 1;
        self.started = true;
    }

    /// The thread of this signal wakes up after the signal to start. Returns whether it is the
    /// last one to do so.
    pub fn wake(&self, sync: &mut ThreadSync) -> (last: bool)
        requires
            self.started,
            old(sync).countdown > 0,
        ensures
            *final(sync) == old(sync).woken(),
            last == (final(sync).countdown == 0),
    {
        sync.countdown -= 1;
        sync.countdown == 0
    }

    /// This signal is given up. If its thread never began to wait, it is not waited for any more.
    pub fn retire(self, sync: &mut ThreadSync)
        requires
            !self.started ==> old(sync).parked_threads.expected > 0,
        ensures
            *final(sync) == (if self.started {
                *old(sync)
            } else {
                old(sync).without_signal()
            }),
    {
        if !self.started {
            sync.parked_threads.expected -= 1;
        }
    }
}

/// The nanoseconds since the epoch of the synchronization, if they fit 64 bits, as they do for
/// 585 years.
pub fn nanos_since_epoch(elapsed: u128) -> (nanos: Option<u64>)
    ensures
        nanos == (if elapsed <= u64::MAX {
            Some(elapsed as u64)
        } else {
            None
        }),
{
    if elapsed <= u64::MAX as u128 {
        Some(elapsed as u64)
    } else {
        None
    }
}

/// The instant until which to spin, given the one that was read: it is known once it is not zero.
pub fn known_target(spinlock_target: u64) -> (target: Option<u64>)
    ensures
        target == (if spinlock_target > 0 {
            Some(spinlock_target)
        } else {
            None
        }),
{
    if spinlock_target > 0 {
        Some(spinlock_target)
    } else {
        None
    }
}

/// Whether a thread has to go on spinning at the instant `now`.
pub fn must_spin(now: u128, target: u64) -> (spin: bool)
    ensures
        spin == (now <= target),
{
    now <= target as u128
}

} // verus!
