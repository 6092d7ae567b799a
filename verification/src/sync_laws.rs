//! What holds of a synchronized start, however its threads are scheduled.
//!
//! A [`System`] is a [`ThreadSync`] with the threads that hold its signals. In each [`Step`] one
//! participant does what the functions of [`crate::sync`] do to the shared state.
use vstd::prelude::*;

use crate::sync::{
    known_target, must_spin, nanos_since_epoch, StartTimedOut, StartTimeout, ThreadSignal,
    ThreadSync, SPIN_NANOS,
};

verus! {

/// Where a thread with a signal is.
pub enum Phase {
    /// It has not begun to wait.
    Created,
    /// Its signal was given up before it began to wait.
    Retired,
    /// It waits for the signal to start.
    Parked,
    /// It was signaled to start and has not woken up yet.
    Notified,
    /// It woke up as the last one and has to fix until when to spin.
    Last,
    /// It woke up and waits for the instant until which to spin.
    Awake,
    /// It spins until that instant.
    Spinning(u64),
    /// It went on after that instant.
    Returned(u64),
}

impl Phase {
    /// The thread has begun to wait.
    pub open spec fn started(self) -> bool {
        !(self is Created) && !(self is Retired)
    }

    /// The thread has woken up after the signal to start.
    pub open spec fn woken(self) -> bool {
        self is Last || self is Awake || self.has_target()
    }

    /// The thread knows until when to spin.
    pub open spec fn has_target(self) -> bool {
        self is Spinning || self is Returned
    }

    /// The instant until which the thread spins.
    pub open spec fn target(self) -> u64 {
        match self {
            Phase::Spinning(target) => target,
            Phase::Returned(target) => target,
            _ => 0,
        }
    }
}

/// A synchronized start under way.
pub struct System {
    /// The shared state.
    pub sync: ThreadSync,
    /// The threads.
    pub threads: Seq<Phase>,
    /// Whether the threads were signaled to start.
    pub signaled: bool,
    /// Whether the owner of the synchronization has given it up. The owner is not waited for, so
    /// that changes nothing for the threads.
    pub released: bool,
}

/// What one participant does.
pub enum Step {
    /// A signal is made.
    NewSignal,
    /// The owner gives up the synchronization.
    Release,
    /// Thread `i` gives up its signal.
    Retire(int),
    /// Thread `i` begins to wait.
    Wait(int),
    /// The owner signals the threads to start.
    Signal,
    /// Thread `i` wakes up.
    Wake(int),
    /// Thread `i`, which woke up last, fixes at the given instant until when to spin.
    Publish(int, u64),
    /// Thread `i` reads until when to spin.
    Read(int),
    /// Thread `i` goes on, at the given instant.
    Return(int, u128),
}

/// A synchronization without threads.
pub open spec fn initial(timeout: StartTimeout) -> System {
    System {
        sync: ThreadSync {
            parked_threads: crate::sync::ParkState { expected: 0, parked: 0 },
            countdown: 0,
            spinlock_target: 0,
            thread_start_timeout: timeout,
        },
        threads: Seq::empty(),
        signaled: false,
        released: false,
    }
}

impl System {
    /// The step can be taken, and what the functions that take it require holds.
    pub open spec fn allows(self, step: Step) -> bool {
        let n = self.threads.len();
        match step {
            Step::NewSignal => self.sync.parked_threads.expected < usize::MAX,
            Step::Release => !self.released,
            Step::Retire(i) => 0 <= i < n && self.threads[i] is Created
                && self.sync.parked_threads.expected > 0,
            Step::Wait(i) => 0 <= i < n && self.threads[i] is Created
                && self.sync.parked_threads.parked < usize::MAX,
            Step::Signal => !self.signaled && !self.released && self.sync.complete(),
            Step::Wake(i) => 0 <= i < n && self.threads[i] is Notified,
            Step::Publish(i, now) => 0 <= i < n && self.threads[i] is Last && now + SPIN_NANOS
                <= u64::MAX,
            Step::Read(i) => 0 <= i < n && self.threads[i] is Awake && self.sync.spinlock_target
                > 0,
            Step::Return(i, now) => 0 <= i < n && self.threads[i] is Spinning && now
                > self.threads[i].target(),
        }
    }

    /// The system after the step.
    pub open spec fn after(self, step: Step) -> System {
        match step {
            Step::NewSignal => System {
                sync: self.sync.with_signal(),
                threads: self.threads.push(Phase::Created),
                ..self
            },
            Step::Release => System { released: true, ..self },
            Step::Retire(i) => System {
                sync: self.sync.without_signal(),
                threads: self.threads.update(i, Phase::Retired),
                ..self
            },
            Step::Wait(i) => System {
                sync: self.sync.with_parked(),
                threads: self.threads.update(i, Phase::Parked),
                ..self
            },
            Step::Signal => System {
                sync: self.sync.signaled(),
                threads: self.threads.map_values(|phase: Phase| notified(phase)),
                signaled: true,
                ..self
            },
            Step::Wake(i) => System {
                sync: self.sync.woken(),
                threads: self.threads.update(
                    i,
                    if self.sync.woken().countdown == 0 {
                        Phase::Last
                    } else {
                        Phase::Awake
                    },
                ),
                ..self
            },
            Step::Publish(i, now) => System {
                sync: self.sync.published(now),
                threads: self.threads.update(i, Phase::Spinning((now + SPIN_NANOS) as u64)),
                ..self
            },
            Step::Read(i) => System {
                threads: self.threads.update(i, Phase::Spinning(self.sync.spinlock_target)),
                ..self
            },
            Step::Return(i, _) => System {
                threads: self.threads.update(i, Phase::Returned(self.threads[i].target())),
                ..self
            },
        }
    }
}

/// What the signal to start does to a thread: it reaches those that wait for it.
pub open spec fn notified(phase: Phase) -> Phase {
    if phase is Parked {
        Phase::Notified
    } else {
        phase
    }
}

/// The system after the steps, one after the other.
pub open spec fn after_steps(timeout: StartTimeout, steps: Seq<Step>) -> System
    decreases steps.len(),
{
    if steps.len() == 0 {
        initial(timeout)
    } else {
        after_steps(timeout, steps.drop_last()).after(steps.last())
    }
}

/// Each of the steps can be taken after those before it.
pub open spec fn possible(timeout: StartTimeout, steps: Seq<Step>) -> bool
    decreases steps.len(),
{
    steps.len() > 0 ==> possible(timeout, steps.drop_last()) && after_steps(
        timeout,
        steps.drop_last(),
    ).allows(steps.last())
}

/// Phases that are counted together.
pub enum Kind {
    /// Not begun to wait.
    Created,
    /// Begun to wait.
    Started,
    /// Waiting for the signal to start.
    Parked,
    /// Signaled and not woken up yet.
    Notified,
    /// Woken up as the last one, with the instant until which to spin yet to be fixed.
    Last,
}

/// The phase is counted among those of the kind.
pub open spec fn of_kind(phase: Phase, kind: Kind) -> bool {
    match kind {
        Kind::Created => phase is Created,
        Kind::Started => phase.started(),
        Kind::Parked => phase is Parked,
        Kind::Notified => phase is Notified,
        Kind::Last => phase is Last,
    }
}

/// One if the phase is of the kind, and else zero.
pub open spec fn one_if(phase: Phase, kind: Kind) -> nat {
    if of_kind(phase, kind) {
        1
    } else {
        0
    }
}

/// The number of threads in a phase of the kind.
pub open spec fn count(threads: Seq<Phase>, kind: Kind) -> nat
    decreases threads.len(),
{
    if threads.len() == 0 {
        0
    } else {
        count(threads.drop_last(), kind) + one_if(threads.last(), kind)
    }
}

/// What holds of a system at all times.
pub open spec fn consistent(s: System) -> bool {
    &&& s.sync.parked_threads.parked == count(s.threads, Kind::Started)
    &&& s.sync.parked_threads.expected == count(s.threads, Kind::Created) + count(
        s.threads,
        Kind::Started,
    )
    &&& s.sync.countdown == count(s.threads, Kind::Notified)
    &&& !s.signaled ==> s.sync.spinlock_target == 0 && forall|i: int|
        0 <= i < s.threads.len() ==> !(#[trigger] s.threads[i]).woken() && !(s.threads[i] is Notified)
    &&& count(s.threads, Kind::Last) <= 1
    &&& forall|i: int|
        0 <= i < s.threads.len() && (#[trigger] s.threads[i]) is Last ==> s.sync.countdown == 0
            && s.sync.spinlock_target == 0
    &&& s.sync.spinlock_target > 0 ==> s.sync.countdown == 0
    &&& forall|i: int|
        0 <= i < s.threads.len() && (#[trigger] s.threads[i]).has_target() ==> s.threads[i].target()
            == s.sync.spinlock_target && s.sync.spinlock_target > 0
}

/// No step breaks the consistency of a system.
pub proof fn lemma_steps_keep_consistency(s: System, step: Step)
    requires
        consistent(s),
        s.allows(step),
    ensures
        consistent(s.after(step)),
{
    let t = s.after(step);
    match step {
        Step::NewSignal => {
            lemma_counts_after_push(s.threads, Phase::Created);
            assert forall|i: int| 0 <= i < t.threads.len() implies (#[trigger] t.threads[i]) is Created
                || t.threads[i] == s.threads[i] by {}
        },
        Step::Release => {},
        Step::Retire(i) => {
            lemma_counts_after_update(s.threads, i, Phase::Retired);
        },
        Step::Wait(i) => {
            lemma_counts_after_update(s.threads, i, Phase::Parked);
        },
        Step::Signal => {
            lemma_counts_after_signal(s.threads);
            assert forall|i: int| 0 <= i < s.threads.len() implies of_kind(
                #[trigger] s.threads[i],
                Kind::Started,
            ) == of_kind(s.threads[i], Kind::Parked) by {}
            lemma_same_count(s.threads, Kind::Started, Kind::Parked);
            lemma_none_counted(s.threads, Kind::Notified);
            lemma_none_counted(s.threads, Kind::Last);
            assert forall|i: int| 0 <= i < t.threads.len() implies !(#[trigger] t.threads[i]).woken() by {
                assert(t.threads[i] == notified(s.threads[i]));
            }
        },
        Step::Wake(i) => {
            let phase = t.threads[i];
            lemma_counts_after_update(s.threads, i, phase);
            lemma_counted(s.threads, i, Kind::Notified);
            assert forall|j: int| 0 <= j < s.threads.len() implies !of_kind(
                #[trigger] s.threads[j],
                Kind::Last,
            ) by {}
            lemma_none_counted(s.threads, Kind::Last);
            assert forall|j: int| 0 <= j < t.threads.len() && j != i implies #[trigger] t.threads[j]
                == s.threads[j] by {}
        },
        Step::Publish(i, now) => {
            let phase = t.threads[i];
            lemma_counts_after_update(s.threads, i, phase);
            lemma_counted(s.threads, i, Kind::Last);
            assert forall|j: int| 0 <= j < t.threads.len() implies !((#[trigger] t.threads[j]) is Last) by {
                if t.threads[j] is Last {
                    lemma_counted(t.threads, j, Kind::Last);
                }
            }
            assert forall|j: int| 0 <= j < t.threads.len() && j != i implies #[trigger] t.threads[j]
                == s.threads[j] by {}
        },
        Step::Read(i) => {
            lemma_counts_after_update(s.threads, i, t.threads[i]);
            assert forall|j: int| 0 <= j < t.threads.len() && j != i implies #[trigger] t.threads[j]
                == s.threads[j] by {}
        },
        Step::Return(i, now) => {
            lemma_counts_after_update(s.threads, i, t.threads[i]);
            assert forall|j: int| 0 <= j < t.threads.len() && j != i implies #[trigger] t.threads[j]
                == s.threads[j] by {}
        },
    }
}

/// However threads and owner take turns, the system is consistent.
pub proof fn lemma_always_consistent(timeout: StartTimeout, steps: Seq<Step>)
    requires
        possible(timeout, steps),
    ensures
        consistent(after_steps(timeout, steps)),
    decreases steps.len(),
{
    if steps.len() > 0 {
        lemma_always_consistent(timeout, steps.drop_last());
        lemma_steps_keep_consistency(after_steps(timeout, steps.drop_last()), steps.last());
    }
}

/// When the threads are signaled to start, every signal has been given up or its thread waits.
pub proof fn lemma_all_threads_wait_when_signaled(timeout: StartTimeout, steps: Seq<Step>, i: int)
    requires
        possible(timeout, steps),
        after_steps(timeout, steps).allows(Step::Signal),
        0 <= i < after_steps(timeout, steps).threads.len(),
    ensures
        after_steps(timeout, steps).threads[i] is Retired || after_steps(
            timeout,
            steps,
        ).threads[i] is Parked,
{
    let s = after_steps(timeout, steps);
    lemma_always_consistent(timeout, steps);
    if s.threads[i] is Created {
        lemma_counted(s.threads, i, Kind::Created);
    }
}

/// No thread goes on before all threads that were signaled have woken up.
pub proof fn lemma_no_thread_goes_on_before_all_are_awake(
    timeout: StartTimeout,
    steps: Seq<Step>,
    i: int,
    j: int,
)
    requires
        possible(timeout, steps),
        0 <= i < after_steps(timeout, steps).threads.len(),
        0 <= j < after_steps(timeout, steps).threads.len(),
        after_steps(timeout, steps).threads[i] is Returned,
    ensures
        !(after_steps(timeout, steps).threads[j] is Notified),
        !(after_steps(timeout, steps).threads[j] is Last),
{
    let s = after_steps(timeout, steps);
    lemma_always_consistent(timeout, steps);
    assert(s.threads[i].has_target());
    if s.threads[j] is Notified {
        lemma_counted(s.threads, j, Kind::Notified);
    }
}

/// All threads spin until the same instant.
pub proof fn lemma_all_threads_spin_until_the_same_instant(
    timeout: StartTimeout,
    steps: Seq<Step>,
    i: int,
    j: int,
)
    requires
        possible(timeout, steps),
        0 <= i < after_steps(timeout, steps).threads.len(),
        0 <= j < after_steps(timeout, steps).threads.len(),
        after_steps(timeout, steps).threads[i].has_target(),
        after_steps(timeout, steps).threads[j].has_target(),
    ensures
        after_steps(timeout, steps).threads[i].target() == after_steps(
            timeout,
            steps,
        ).threads[j].target(),
{
    lemma_always_consistent(timeout, steps);
}

/// A thread that was signaled can always wake up: the count of those yet to wake up includes it.
pub proof fn lemma_signaled_threads_can_wake(timeout: StartTimeout, steps: Seq<Step>, i: int)
    requires
        possible(timeout, steps),
        0 <= i < after_steps(timeout, steps).threads.len(),
        after_steps(timeout, steps).threads[i] is Notified,
    ensures
        after_steps(timeout, steps).sync.countdown > 0,
{
    let s = after_steps(timeout, steps);
    lemma_always_consistent(timeout, steps);
    lemma_counted(s.threads, i, Kind::Notified);
}

/// A signal whose thread never began to wait can always be given up: it is among those that are
/// waited for.
pub proof fn lemma_unused_signals_can_be_given_up(timeout: StartTimeout, steps: Seq<Step>, i: int)
    requires
        possible(timeout, steps),
        0 <= i < after_steps(timeout, steps).threads.len(),
        after_steps(timeout, steps).threads[i] is Created,
    ensures
        after_steps(timeout, steps).allows(Step::Retire(i)),
{
    let s = after_steps(timeout, steps);
    lemma_always_consistent(timeout, steps);
    lemma_counted(s.threads, i, Kind::Created);
}

/// Once all signaled threads have woken up, the instant until which to spin is known or there is a
/// thread that is about to fix it, so none of them waits for it in vain.
pub proof fn lemma_no_thread_waits_in_vain(timeout: StartTimeout, steps: Seq<Step>, i: int)
    requires
        possible(timeout, steps),
        0 <= i < after_steps(timeout, steps).threads.len(),
        after_steps(timeout, steps).threads[i] is Awake,
    ensures
        after_steps(timeout, steps).sync.spinlock_target > 0 || exists|j: int|
            0 <= j < after_steps(timeout, steps).threads.len() && ((
            #[trigger] after_steps(timeout, steps).threads[j]) is Last || after_steps(
                timeout,
                steps,
            ).threads[j] is Notified),
    decreases steps.len(),
{
    let s = after_steps(timeout, steps);
    if steps.len() > 0 {
        let r = after_steps(timeout, steps.drop_last());
        let step = steps.last();
        lemma_always_consistent(timeout, steps.drop_last());
        lemma_always_consistent(timeout, steps);
        if s.sync.spinlock_target == 0 {
            if step is Wake {
                let k = step->Wake_0;
                if s.threads[k] is Awake {
                    lemma_counts_after_update(r.threads, k, s.threads[k]);
                    let j = lemma_find_counted(s.threads, Kind::Notified);
                    assert(s.threads[j] is Notified);
                } else {
                    assert(s.threads[k] is Last);
                }
            } else if step is Signal {
                assert(s.threads[i] == notified(r.threads[i]));
            } else {
                if step is NewSignal {
                    assert(i < r.threads.len());
                }
                assert(r.threads[i] is Awake);
                lemma_no_thread_waits_in_vain(timeout, steps.drop_last(), i);
                let j = choose|j: int|
                    0 <= j < r.threads.len() && ((#[trigger] r.threads[j]) is Last
                        || r.threads[j] is Notified);
                assert(s.threads[j] == r.threads[j]);
            }
        }
    }
}

/// How many turns a thread that was signaled still has to take before it goes on: it wakes up, learns
/// until when to spin, and goes on after that instant.
pub open spec fn turns_left(phase: Phase) -> nat {
    match phase {
        Phase::Notified => 3,
        Phase::Last => 2,
        Phase::Awake => 2,
        Phase::Spinning(_) => 1,
        _ => 0,
    }
}

/// How many turns all threads that were signaled still have to take.
pub open spec fn all_turns_left(threads: Seq<Phase>) -> nat
    decreases threads.len(),
{
    if threads.len() == 0 {
        0
    } else {
        all_turns_left(threads.drop_last()) + turns_left(threads.last())
    }
}

/// The step is such a turn.
pub open spec fn is_turn(step: Step) -> bool {
    step is Wake || step is Publish || step is Read || step is Return
}

/// The number of such turns among the steps.
pub open spec fn turns(steps: Seq<Step>) -> nat
    decreases steps.len(),
{
    if steps.len() == 0 {
        0
    } else {
        turns(steps.drop_last()) + if is_turn(steps.last()) {
            1nat
        } else {
            0nat
        }
    }
}

/// Some thread can always go on: as long as one that was signaled has turns left, one of them can
/// take a turn.
pub proof fn lemma_some_thread_can_take_a_turn(timeout: StartTimeout, steps: Seq<Step>, i: int) -> (
    step: Step)
    requires
        possible(timeout, steps),
        0 <= i < after_steps(timeout, steps).threads.len(),
        turns_left(after_steps(timeout, steps).threads[i]) > 0,
    ensures
        is_turn(step),
        after_steps(timeout, steps).allows(step),
{
    let s = after_steps(timeout, steps);
    match s.threads[i] {
        Phase::Notified => Step::Wake(i),
        Phase::Last => Step::Publish(i, 0),
        Phase::Spinning(target) => Step::Return(i, (target + 1) as u128),
        _ => {
            lemma_no_thread_waits_in_vain(timeout, steps, i);
            if s.sync.spinlock_target > 0 {
                Step::Read(i)
            } else {
                let j = choose|j: int|
                    0 <= j < s.threads.len() && ((#[trigger] s.threads[j]) is Last
                        || s.threads[j] is Notified);
                if s.threads[j] is Last {
                    Step::Publish(j, 0)
                } else {
                    Step::Wake(j)
                }
            }
        },
    }
}

/// Once the threads were signaled, each turn leaves one turn less to take, and no other step adds
/// one.
pub proof fn lemma_each_turn_counts(s: System, step: Step)
    requires
        s.signaled,
        s.allows(step),
    ensures
        s.after(step).signaled,
        all_turns_left(s.after(step).threads) + (if is_turn(step) {
            1nat
        } else {
            0nat
        }) == all_turns_left(s.threads),
{
    let t = s.after(step);
    match step {
        Step::NewSignal => {
            assert(t.threads.drop_last() =~= s.threads);
        },
        Step::Release => {},
        Step::Signal => {},
        Step::Retire(i) => lemma_turns_after_update(s.threads, i, t.threads[i]),
        Step::Wait(i) => lemma_turns_after_update(s.threads, i, t.threads[i]),
        Step::Wake(i) => lemma_turns_after_update(s.threads, i, t.threads[i]),
        Step::Publish(i, _) => lemma_turns_after_update(s.threads, i, t.threads[i]),
        Step::Read(i) => lemma_turns_after_update(s.threads, i, t.threads[i]),
        Step::Return(i, _) => lemma_turns_after_update(s.threads, i, t.threads[i]),
    }
}

/// The turns that are left run out: whatever else happens after the threads were signaled, the turns
/// taken and those still left are as many as there were. So only so many turns can be taken, and
/// when none can be taken any more, every thread that was signaled has gone on.
pub proof fn lemma_turns_run_out(timeout: StartTimeout, steps: Seq<Step>, more: Seq<Step>)
    requires
        possible(timeout, steps + more),
        after_steps(timeout, steps).signaled,
    ensures
        after_steps(timeout, steps + more).signaled,
        turns(more) + all_turns_left(after_steps(timeout, steps + more).threads) == all_turns_left(
            after_steps(timeout, steps).threads,
        ),
    decreases more.len(),
{
    let all = steps + more;
    if more.len() == 0 {
        assert(all =~= steps);
    } else {
        let rest = more.drop_last();
        assert(all.drop_last() =~= steps + rest);
        assert(all.last() == more.last());
        lemma_turns_run_out(timeout, steps, rest);
        lemma_each_turn_counts(after_steps(timeout, steps + rest), more.last());
    }
}

/// Every thread that was signaled goes on in the end: from whatever state the start is in by then,
/// the turns that threads can take lead to one in which all of them have gone on.
pub proof fn lemma_all_signaled_threads_go_on(timeout: StartTimeout, steps: Seq<Step>) -> (more: Seq<
    Step,
>)
    requires
        possible(timeout, steps),
        after_steps(timeout, steps).signaled,
    ensures
        possible(timeout, steps + more),
        all_turns_left(after_steps(timeout, steps + more).threads) == 0,
        after_steps(timeout, steps + more).threads.len() == after_steps(timeout, steps).threads.len(),
        forall|i: int|
            0 <= i < after_steps(timeout, steps).threads.len() && (turns_left(
                #[trigger] after_steps(timeout, steps).threads[i],
            ) > 0 || after_steps(timeout, steps).threads[i] is Returned) ==> after_steps(
                timeout,
                steps + more,
            ).threads[i] is Returned,
    decreases all_turns_left(after_steps(timeout, steps).threads),
{
    let s = after_steps(timeout, steps);
    if all_turns_left(s.threads) == 0 {
        let more = Seq::<Step>::empty();
        assert(steps + more =~= steps);
        assert forall|i: int| 0 <= i < s.threads.len() implies turns_left(#[trigger] s.threads[i])
            == 0 by {
            lemma_turns_are_among_all(s.threads, i);
        }
        more
    } else {
        let j = lemma_find_turns_left(s.threads);
        let step = lemma_some_thread_can_take_a_turn(timeout, steps, j);
        let next = steps.push(step);
        assert(next.drop_last() =~= steps);
        let t = after_steps(timeout, next);
        assert(t == s.after(step));
        lemma_each_turn_counts(s, step);
        let rest = lemma_all_signaled_threads_go_on(timeout, next);
        let more = seq![step] + rest;
        assert(next + rest =~= steps + more);
        assert forall|i: int|
            0 <= i < s.threads.len() && (turns_left(#[trigger] s.threads[i]) > 0
                || s.threads[i] is Returned) implies after_steps(timeout, steps + more).threads[i] is Returned by {
            assert(turns_left(t.threads[i]) > 0 || t.threads[i] is Returned);
        }
        more
    }
}

/// All threads that wait when they are signaled to start go on in the end.
pub proof fn lemma_waiting_threads_go_on_once_signaled(timeout: StartTimeout, steps: Seq<Step>) -> (
    more: Seq<Step>)
    requires
        possible(timeout, steps),
        after_steps(timeout, steps).allows(Step::Signal),
    ensures
        possible(timeout, steps.push(Step::Signal) + more),
        after_steps(timeout, steps.push(Step::Signal) + more).threads.len() == after_steps(
            timeout,
            steps,
        ).threads.len(),
        forall|i: int|
            0 <= i < after_steps(timeout, steps).threads.len() && (#[trigger] after_steps(
                timeout,
                steps,
            ).threads[i]) is Parked ==> after_steps(
                timeout,
                steps.push(Step::Signal) + more,
            ).threads[i] is Returned,
{
    let s = after_steps(timeout, steps);
    let signaled = steps.push(Step::Signal);
    assert(signaled.drop_last() =~= steps);
    let t = after_steps(timeout, signaled);
    assert(t == s.after(Step::Signal));
    let more = lemma_all_signaled_threads_go_on(timeout, signaled);
    assert forall|i: int| 0 <= i < s.threads.len() && (
    #[trigger] s.threads[i]) is Parked implies after_steps(timeout, signaled + more).threads[i] is Returned by {
        assert(t.threads[i] is Notified);
    }
    more
}

/// No thread that was signaled is left behind: where no thread can take a turn any more, whatever
/// happened until then, all of them have gone on.
pub proof fn lemma_no_signaled_thread_is_left_behind(
    timeout: StartTimeout,
    steps: Seq<Step>,
    more: Seq<Step>,
    i: int,
)
    requires
        possible(timeout, steps + more),
        after_steps(timeout, steps).signaled,
        0 <= i < after_steps(timeout, steps).threads.len(),
        turns_left(after_steps(timeout, steps).threads[i]) > 0,
        forall|step: Step|
            is_turn(step) ==> !(#[trigger] after_steps(timeout, steps + more).allows(step)),
    ensures
        0 <= i < after_steps(timeout, steps + more).threads.len(),
        after_steps(timeout, steps + more).threads[i] is Returned,
{
    lemma_on_the_way_or_gone_on(timeout, steps, more, i);
    let t = after_steps(timeout, steps + more);
    if turns_left(t.threads[i]) > 0 {
        let step = lemma_some_thread_can_take_a_turn(timeout, steps + more, i);
        assert(!t.allows(step));
    }
}

/// A thread that was signaled has turns left, or has gone on.
proof fn lemma_on_the_way_or_gone_on(
    timeout: StartTimeout,
    steps: Seq<Step>,
    more: Seq<Step>,
    i: int,
)
    requires
        possible(timeout, steps + more),
        after_steps(timeout, steps).signaled,
        0 <= i < after_steps(timeout, steps).threads.len(),
        turns_left(after_steps(timeout, steps).threads[i]) > 0,
    ensures
        0 <= i < after_steps(timeout, steps + more).threads.len(),
        turns_left(after_steps(timeout, steps + more).threads[i]) > 0 || after_steps(
            timeout,
            steps + more,
        ).threads[i] is Returned,
    decreases more.len(),
{
    let all = steps + more;
    if more.len() == 0 {
        assert(all =~= steps);
    } else {
        let rest = more.drop_last();
        assert(all.drop_last() =~= steps + rest);
        assert(all.last() == more.last());
        lemma_on_the_way_or_gone_on(timeout, steps, rest, i);
        let (r, t) = (after_steps(timeout, steps + rest), after_steps(timeout, all));
        assert(t == r.after(more.last()));
        if more.last() is Signal {
            assert(t.threads[i] == notified(r.threads[i]));
        }
    }
}

/// What a change of one thread does to the turns that are left.
proof fn lemma_turns_after_update(threads: Seq<Phase>, i: int, phase: Phase)
    requires
        0 <= i < threads.len(),
    ensures
        all_turns_left(threads.update(i, phase)) + turns_left(threads[i]) == all_turns_left(threads)
            + turns_left(phase),
    decreases threads.len(),
{
    let changed = threads.update(i, phase);
    if i == threads.len() - 1 {
        assert(changed.drop_last() =~= threads.drop_last());
    } else {
        lemma_turns_after_update(threads.drop_last(), i, phase);
        assert(changed.drop_last() =~= threads.drop_last().update(i, phase));
        assert(changed.last() == threads.last());
    }
}

/// The turns of one thread are among those of all.
proof fn lemma_turns_are_among_all(threads: Seq<Phase>, i: int)
    requires
        0 <= i < threads.len(),
    ensures
        turns_left(threads[i]) <= all_turns_left(threads),
    decreases threads.len(),
{
    if i < threads.len() - 1 {
        assert(threads.drop_last()[i] == threads[i]);
        lemma_turns_are_among_all(threads.drop_last(), i);
    }
}

/// Where turns are left, some thread has them.
proof fn lemma_find_turns_left(threads: Seq<Phase>) -> (i: int)
    requires
        all_turns_left(threads) > 0,
    ensures
        0 <= i < threads.len(),
        turns_left(threads[i]) > 0,
    decreases threads.len(),
{
    if turns_left(threads.last()) > 0 {
        threads.len() - 1
    } else {
        lemma_find_turns_left(threads.drop_last())
    }
}

/// A thread begins to wait at most once: after it has, it can neither begin again nor give up its
/// signal as unused.
pub proof fn lemma_a_signal_waits_only_once(
    timeout: StartTimeout,
    steps: Seq<Step>,
    i: int,
    first: int,
    later: int,
)
    requires
        possible(timeout, steps),
        0 <= first < later < steps.len(),
        steps[first] == Step::Wait(i),
    ensures
        steps[later] != Step::Wait(i),
        steps[later] != Step::Retire(i),
    decreases steps.len(),
{
    if later < steps.len() - 1 {
        let rest = steps.drop_last();
        assert(rest[first] == steps[first] && rest[later] == steps[later]);
        lemma_a_signal_waits_only_once(timeout, rest, i, first, later);
    } else {
        let rest = steps.drop_last();
        assert(rest[first] == steps[first]);
        lemma_started_for_good(timeout, rest, i, first);
        assert(after_steps(timeout, rest).allows(steps[later]));
    }
}

/// A thread that began to wait has begun to wait ever after.
proof fn lemma_started_for_good(timeout: StartTimeout, steps: Seq<Step>, i: int, first: int)
    requires
        possible(timeout, steps),
        0 <= first < steps.len(),
        steps[first] == Step::Wait(i),
    ensures
        0 <= i < after_steps(timeout, steps).threads.len(),
        after_steps(timeout, steps).threads[i].started(),
    decreases steps.len(),
{
    let rest = steps.drop_last();
    let (r, s) = (after_steps(timeout, rest), after_steps(timeout, steps));
    if first < steps.len() - 1 {
        assert(rest[first] == steps[first]);
        lemma_started_for_good(timeout, rest, i, first);
        if steps.last() is Signal {
            assert(s.threads[i] == notified(r.threads[i]));
        }
    }
}

/// A signal that is given up before its thread begins to wait leaves no trace.
pub proof fn lemma_retired_signal_leaves_no_trace(sync: ThreadSync)
    requires
        sync.parked_threads.expected < usize::MAX,
    ensures
        sync.with_signal().without_signal() == sync,
{
}

/// What a change of one thread does to the counts.
proof fn lemma_counts_after_update(threads: Seq<Phase>, i: int, phase: Phase)
    requires
        0 <= i < threads.len(),
    ensures
        forall|kind: Kind| #[trigger]
            count(threads.update(i, phase), kind) + one_if(threads[i], kind) == count(threads, kind)
                + one_if(phase, kind),
{
    assert forall|kind: Kind| #[trigger]
        count(threads.update(i, phase), kind) + one_if(threads[i], kind) == count(threads, kind)
            + one_if(phase, kind) by {
        lemma_count_update(threads, i, phase, kind);
    }
}

/// What a change of one thread does to one count.
proof fn lemma_count_update(threads: Seq<Phase>, i: int, phase: Phase, kind: Kind)
    requires
        0 <= i < threads.len(),
    ensures
        count(threads.update(i, phase), kind) + one_if(threads[i], kind) == count(threads, kind)
            + one_if(phase, kind),
    decreases threads.len(),
{
    let changed = threads.update(i, phase);
    if i == threads.len() - 1 {
        assert(changed.drop_last() =~= threads.drop_last());
    } else {
        lemma_count_update(threads.drop_last(), i, phase, kind);
        assert(changed.drop_last() =~= threads.drop_last().update(i, phase));
        assert(changed.last() == threads.last());
    }
}

/// What one more thread does to the counts.
proof fn lemma_counts_after_push(threads: Seq<Phase>, phase: Phase)
    ensures
        forall|kind: Kind| #[trigger]
            count(threads.push(phase), kind) == count(threads, kind) + one_if(phase, kind),
{
    assert(threads.push(phase).drop_last() =~= threads);
}

/// What the signal to start does to the counts.
proof fn lemma_counts_after_signal(threads: Seq<Phase>)
    ensures
        ({
            let moved = threads.map_values(|phase: Phase| notified(phase));
            &&& count(moved, Kind::Created) == count(threads, Kind::Created)
            &&& count(moved, Kind::Started) == count(threads, Kind::Started)
            &&& count(moved, Kind::Last) == count(threads, Kind::Last)
            &&& count(moved, Kind::Notified) == count(threads, Kind::Notified) + count(
                threads,
                Kind::Parked,
            )
        }),
    decreases threads.len(),
{
    let moved = threads.map_values(|phase: Phase| notified(phase));
    if threads.len() > 0 {
        let rest = threads.drop_last();
        lemma_counts_after_signal(rest);
        assert(moved.drop_last() =~= rest.map_values(|phase: Phase| notified(phase)));
        assert(moved.last() == notified(threads.last()));
    }
}

/// Two kinds that no thread tells apart are counted alike.
proof fn lemma_same_count(threads: Seq<Phase>, kind: Kind, other: Kind)
    requires
        forall|i: int|
            0 <= i < threads.len() ==> of_kind(#[trigger] threads[i], kind) == of_kind(
                threads[i],
                other,
            ),
    ensures
        count(threads, kind) == count(threads, other),
    decreases threads.len(),
{
    if threads.len() > 0 {
        let rest = threads.drop_last();
        assert forall|i: int| 0 <= i < rest.len() implies of_kind(#[trigger] rest[i], kind)
            == of_kind(rest[i], other) by {
            assert(rest[i] == threads[i]);
        }
        lemma_same_count(rest, kind, other);
        assert(of_kind(threads[threads.len() - 1], kind) == of_kind(
            threads[threads.len() - 1],
            other,
        ));
    }
}

/// A thread of a kind is counted.
proof fn lemma_counted(threads: Seq<Phase>, i: int, kind: Kind)
    requires
        0 <= i < threads.len(),
        of_kind(threads[i], kind),
    ensures
        count(threads, kind) >= 1,
    decreases threads.len(),
{
    if i < threads.len() - 1 {
        assert(threads.drop_last()[i] == threads[i]);
        lemma_counted(threads.drop_last(), i, kind);
    }
}

/// What is counted is there.
proof fn lemma_find_counted(threads: Seq<Phase>, kind: Kind) -> (i: int)
    requires
        count(threads, kind) >= 1,
    ensures
        0 <= i < threads.len(),
        of_kind(threads[i], kind),
    decreases threads.len(),
{
    if of_kind(threads.last(), kind) {
        threads.len() - 1
    } else {
        lemma_find_counted(threads.drop_last(), kind)
    }
}

/// Where no thread is of a kind, none is counted.
proof fn lemma_none_counted(threads: Seq<Phase>, kind: Kind)
    requires
        forall|i: int| 0 <= i < threads.len() ==> !of_kind(#[trigger] threads[i], kind),
    ensures
        count(threads, kind) == 0,
    decreases threads.len(),
{
    if count(threads, kind) >= 1 {
        let i = lemma_find_counted(threads, kind);
        assert(!of_kind(threads[i], kind));
    }
}

/// Once every thread has begun to wait or has given up its signal, the threads can be signaled: the
/// owner is told that all have parked, and waits no longer.
pub proof fn lemma_the_signal_comes_once_all_threads_wait(
    timeout: StartTimeout,
    steps: Seq<Step>,
    complete: bool,
)
    requires
        possible(timeout, steps),
        !after_steps(timeout, steps).signaled,
        !after_steps(timeout, steps).released,
        forall|i: int|
            0 <= i < after_steps(timeout, steps).threads.len() ==> !((#[trigger] after_steps(
                timeout,
                steps,
            ).threads[i]) is Created),
        call_ensures(ThreadSync::all_parked, (&after_steps(timeout, steps).sync,), complete),
    ensures
        complete,
        after_steps(timeout, steps).allows(Step::Signal),
{
    let s = after_steps(timeout, steps);
    lemma_always_consistent(timeout, steps);
    assert forall|i: int| 0 <= i < s.threads.len() implies !of_kind(
        #[trigger] s.threads[i],
        Kind::Created,
    ) by {}
    lemma_none_counted(s.threads, Kind::Created);
}

/// As long as a thread with a signal has neither begun to wait nor given it up, the owner is told
/// that not all have parked.
pub proof fn lemma_the_owner_waits_for_every_thread(
    timeout: StartTimeout,
    steps: Seq<Step>,
    i: int,
    complete: bool,
)
    requires
        possible(timeout, steps),
        0 <= i < after_steps(timeout, steps).threads.len(),
        after_steps(timeout, steps).threads[i] is Created,
        call_ensures(ThreadSync::all_parked, (&after_steps(timeout, steps).sync,), complete),
    ensures
        !complete,
        !after_steps(timeout, steps).allows(Step::Signal),
{
    let s = after_steps(timeout, steps);
    lemma_always_consistent(timeout, steps);
    lemma_counted(s.threads, i, Kind::Created);
}

/// A synchronized start begins without threads, as a new synchronization does, and whatever happens
/// keeps the time that threads may take.
pub proof fn lemma_the_timeout_stays(
    timeout: StartTimeout,
    steps: Seq<Step>,
    sync: ThreadSync,
)
    requires
        call_ensures(ThreadSync::new, (timeout,), sync),
    ensures
        after_steps(timeout, Seq::empty()).sync == sync,
        after_steps(timeout, steps).sync.thread_start_timeout == timeout,
    decreases steps.len(),
{
    if steps.len() > 0 {
        lemma_the_timeout_stays(timeout, steps.drop_last(), sync);
    }
}

/// The last thread to wake up lets all spin for a hundred microseconds from then, and only it wakes
/// up as the last one: when all others that were signaled are awake.
pub proof fn lemma_threads_spin_for_a_hundred_microseconds(
    timeout: StartTimeout,
    steps: Seq<Step>,
    i: int,
    now: u64,
    j: int,
)
    requires
        possible(timeout, steps),
        after_steps(timeout, steps).allows(Step::Publish(i, now)),
        0 <= j < after_steps(timeout, steps).threads.len(),
    ensures
        after_steps(timeout, steps).after(Step::Publish(i, now)).sync.spinlock_target == now
            + 100_000,
        after_steps(timeout, steps).after(Step::Publish(i, now)).threads[i].target() == now + 100_000,
        !(after_steps(timeout, steps).threads[j] is Notified),
        after_steps(timeout, steps).threads[j] is Last ==> j == i,
{
    let s = after_steps(timeout, steps);
    lemma_always_consistent(timeout, steps);
    assert(s.threads[i] is Last);
    if s.threads[j] is Notified {
        lemma_counted(s.threads, j, Kind::Notified);
    }
    if s.threads[j] is Last && j != i {
        let others = s.threads.update(i, Phase::Awake);
        lemma_counts_after_update(s.threads, i, Phase::Awake);
        assert(others[j] is Last);
        lemma_counted(others, j, Kind::Last);
        assert(count(others, Kind::Last) + one_if(s.threads[i], Kind::Last) == count(
            s.threads,
            Kind::Last,
        ) + one_if(Phase::Awake, Kind::Last));
    }
}

/// A thread spins up to its target and no longer: who need not spin at one instant need not at a
/// later one, the target itself is still spun through, and the instant after is not.
pub proof fn lemma_threads_spin_up_to_the_target(
    earlier: u128,
    later: u128,
    target: u64,
    spin: (bool, bool),
)
    requires
        earlier <= later,
        call_ensures(must_spin, (earlier, target), spin.0),
        call_ensures(must_spin, (later, target), spin.1),
    ensures
        spin.1 ==> spin.0,
        earlier == target ==> spin.0,
        later == target + 1 ==> !spin.1,
        !spin.1 ==> later > target,
        spin.0 ==> earlier <= target,
{
}

/// A target is known once it was published: none that can be published is taken for none.
pub proof fn lemma_published_targets_are_known(now: u64, target: Option<u64>)
    requires
        now + 100_000 <= u64::MAX,
        call_ensures(known_target, ((now + SPIN_NANOS) as u64,), target),
    ensures
        target == Some((now + 100_000) as u64),
{
}

/// Instants keep their distance when they are counted from the epoch, and only what does not fit 64
/// bits is no instant.
pub proof fn lemma_instants_keep_their_distance(
    elapsed: u128,
    other: u128,
    nanos: (Option<u64>, Option<u64>),
)
    requires
        call_ensures(nanos_since_epoch, (elapsed,), nanos.0),
        call_ensures(nanos_since_epoch, (other,), nanos.1),
    ensures
        nanos.0 is Some <==> elapsed <= u64::MAX,
        nanos.0 is Some && nanos.1 is Some ==> nanos.0->0 - nanos.1->0 == elapsed - other,
        elapsed == 0 ==> nanos.0 == Some(0u64),
{
}

/// To make a signal is that step: one thread more is expected, and it has not begun to wait.
pub proof fn lemma_making_a_signal_is_a_step(s: System, sync: &mut ThreadSync, signal: ThreadSignal)
    requires
        *old(sync) == s.sync,
        s.allows(Step::NewSignal),
        call_ensures(ThreadSync::new_signal, (sync,), signal),
    ensures
        *final(sync) == s.after(Step::NewSignal).sync,
        final(sync).parked_threads.expected == s.sync.parked_threads.expected + 1,
        final(sync).parked_threads.parked == s.sync.parked_threads.parked,
        final(sync).countdown == s.sync.countdown,
        final(sync).spinlock_target == s.sync.spinlock_target,
        !signal.started,
{
}

/// To begin to wait is that step: one thread more has arrived, and its signal has started.
pub proof fn lemma_beginning_to_wait_is_a_step(
    s: System,
    i: int,
    signal: &mut ThreadSignal,
    sync: &mut ThreadSync,
)
    requires
        *old(sync) == s.sync,
        s.allows(Step::Wait(i)),
        call_ensures(ThreadSignal::wait, (signal, sync), ()),
    ensures
        *final(sync) == s.after(Step::Wait(i)).sync,
        final(sync).parked_threads.parked == s.sync.parked_threads.parked + 1,
        final(sync).parked_threads.expected == s.sync.parked_threads.expected,
        final(sync).countdown == s.sync.countdown,
        final(sync).spinlock_target == s.sync.spinlock_target,
        final(signal).started,
{
}

/// To signal the threads is that step, unless the time is up: all that arrived are then counted, to
/// be counted down as they wake up. If the time is up, nothing changes.
pub proof fn lemma_signaling_is_a_step(
    s: System,
    sync: &mut ThreadSync,
    timed_out: bool,
    r: Result<(), StartTimedOut>,
)
    requires
        *old(sync) == s.sync,
        call_ensures(ThreadSync::signal_threads, (sync, timed_out), r),
    ensures
        r is Err <==> timed_out,
        timed_out ==> *final(sync) == s.sync,
        !timed_out ==> {
            &&& *final(sync) == s.after(Step::Signal).sync
            &&& final(sync).countdown == s.sync.parked_threads.parked
            &&& final(sync).parked_threads == s.sync.parked_threads
            &&& final(sync).spinlock_target == s.sync.spinlock_target
        },
{
}

/// To wake up is that step: one thread less is to wake up, and who finds that none is left is the
/// last.
pub proof fn lemma_waking_up_is_a_step(
    s: System,
    i: int,
    signal: ThreadSignal,
    sync: &mut ThreadSync,
    last: bool,
)
    requires
        *old(sync) == s.sync,
        s.allows(Step::Wake(i)),
        s.sync.countdown > 0,
        call_ensures(ThreadSignal::wake, (&signal, sync), last),
    ensures
        *final(sync) == s.after(Step::Wake(i)).sync,
        final(sync).countdown == s.sync.countdown - 1,
        final(sync).parked_threads == s.sync.parked_threads,
        final(sync).spinlock_target == s.sync.spinlock_target,
        last <==> s.after(Step::Wake(i)).threads[i] is Last,
        last <==> s.sync.countdown == 1,
{
}

/// To fix until when to spin is that step: a hundred microseconds from then.
pub proof fn lemma_publishing_is_a_step(
    s: System,
    i: int,
    now: u64,
    sync: &mut ThreadSync,
    target: u64,
)
    requires
        *old(sync) == s.sync,
        s.allows(Step::Publish(i, now)),
        call_ensures(ThreadSync::publish_target, (sync, now), target),
    ensures
        *final(sync) == s.after(Step::Publish(i, now)).sync,
        final(sync).spinlock_target == now + 100_000,
        final(sync).parked_threads == s.sync.parked_threads,
        final(sync).countdown == s.sync.countdown,
        target == now + 100_000,
        s.after(Step::Publish(i, now)).threads[i] == Phase::Spinning(target),
{
}

/// To give up a signal is that step where its thread never began to wait, and changes nothing where it
/// did.
pub proof fn lemma_giving_up_a_signal_is_a_step(
    s: System,
    i: int,
    signal: ThreadSignal,
    sync: &mut ThreadSync,
)
    requires
        *old(sync) == s.sync,
        call_ensures(ThreadSignal::retire, (signal, sync), ()),
    ensures
        signal.started ==> *final(sync) == s.sync,
        !signal.started && s.allows(Step::Retire(i)) ==> {
            &&& *final(sync) == s.after(Step::Retire(i)).sync
            &&& final(sync).parked_threads.expected == s.sync.parked_threads.expected - 1
            &&& final(sync).parked_threads.parked == s.sync.parked_threads.parked
            &&& final(sync).countdown == s.sync.countdown
            &&& final(sync).spinlock_target == s.sync.spinlock_target
        },
{
}

/// A thread that is awake can learn until when to spin exactly when that is known, and it learns what
/// was published.
pub proof fn lemma_learning_the_target_is_a_step(s: System, i: int, target: Option<u64>)
    requires
        0 <= i < s.threads.len(),
        s.threads[i] is Awake,
        call_ensures(known_target, (s.sync.spinlock_target,), target),
    ensures
        target is Some <==> s.allows(Step::Read(i)),
        target is Some <==> s.sync.spinlock_target != 0,
        target matches Some(known) ==> s.after(Step::Read(i)).threads[i] == Phase::Spinning(known)
            && known == s.sync.spinlock_target,
{
}

/// A thread that spins goes on exactly when it need not spin any more.
pub proof fn lemma_going_on_is_a_step(s: System, i: int, now: u128, spin: bool)
    requires
        0 <= i < s.threads.len(),
        s.threads[i] is Spinning,
        call_ensures(must_spin, (now, s.threads[i].target()), spin),
    ensures
        !spin <==> s.allows(Step::Return(i, now)),
{
}

} // verus!
