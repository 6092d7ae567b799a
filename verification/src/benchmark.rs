//! Benchmarks: what is run, how often, and in which order.
//!
//! A [`Benchmark`] is put together and then turned into a [`Schedule`], which says one [`Action`]
//! after the other. Whoever performs the actions tells the schedule what came of each.
use vstd::prelude::*;

use crate::sync::StartTimeout;

verus! {

/// How long threads may take to start unless said otherwise, in seconds.
pub const DEFAULT_START_TIMEOUT_SECS: u64 = 15;

/// A benchmark that helps execute benchmarks with multiple implementations and configuration
/// options.
pub struct Benchmark<Config, Implementation> {
    /// The numbers of threads to run with.
    pub threads: Vec<usize>,
    /// The configurations to run with.
    pub configs: Vec<Config>,
    /// How long threads may take to start.
    pub thread_start_timeout: StartTimeout,
    /// The implementations to run.
    pub functions: Vec<Implementation>,
}

impl<Implementation> Default for Benchmark<(), Implementation> {
    fn default() -> (benchmark: Self)
        ensures
            benchmark.threads@ == Seq::<usize>::empty(),
            benchmark.configs@ == seq![()],
            benchmark.thread_start_timeout == default_timeout(),
            benchmark.functions@ == Seq::<Implementation>::empty(),
    {
        Benchmark::for_config(())
    }
}

/// How long threads may take to start unless said otherwise.
pub open spec fn default_timeout() -> StartTimeout {
    StartTimeout { secs: DEFAULT_START_TIMEOUT_SECS, subsec_nanos: 0 }
}

impl<Config, Implementation> Benchmark<Config, Implementation> {
    /// Returns a new instance using `config` as the configuration parameter for each
    /// implementation.
    pub fn for_config(config: Config) -> (benchmark: Self)
        ensures
            benchmark.threads@ == Seq::<usize>::empty(),
            benchmark.configs@ == seq![config],
            benchmark.thread_start_timeout == default_timeout(),
            benchmark.functions@ == Seq::<Implementation>::empty(),
    {
        let mut configs: Vec<Config> = Vec::new();
        configs.push(config);
        assert(configs@ =~= seq![config]);
        Self::for_each_config(configs)
    }

    /// Returns a new instance that will invoke each implementation once for each `config`.
    pub fn for_each_config(configs: Vec<Config>) -> (benchmark: Self)
        ensures
            benchmark.threads@ == Seq::<usize>::empty(),
            benchmark.configs == configs,
            benchmark.thread_start_timeout == default_timeout(),
            benchmark.functions@ == Seq::<Implementation>::empty(),
    {
        Benchmark {
            threads: Vec::new(),
            configs,
            thread_start_timeout: StartTimeout {
                secs: DEFAULT_START_TIMEOUT_SECS,
                subsec_nanos: 0,
            },
            functions: Vec::new(),
        }
    }

    /// Updates the timeout used to detect thread start failures.
    pub fn with_thread_start_timeout(self, thread_start_timeout: StartTimeout) -> (benchmark: Self)
        ensures
            benchmark == (Benchmark { thread_start_timeout, ..self }),
    {
        Benchmark { thread_start_timeout, ..self }
    }

    /// Executes the benchmark using `number_of_threads`.
    pub fn with_number_of_threads(self, number_of_threads: usize) -> (benchmark: Self)
        ensures
            benchmark.threads@ == seq![number_of_threads],
            benchmark == (Benchmark { threads: benchmark.threads, ..self }),
    {
        let mut threads: Vec<usize> = Vec::new();
        threads.push(number_of_threads);
        assert(threads@ =~= seq![number_of_threads]);
        Benchmark { threads, ..self }
    }

    /// Executes the benchmark once for each value in `threads`. For example, if `[1, 2, 3]` were
    /// passed in for `threads`, the benchmark will execute once with 1 thread, again with 2
    /// threads, and finally one last time with 3 threads.
    pub fn with_each_number_of_threads(self, threads: Vec<usize>) -> (benchmark: Self)
        ensures
            benchmark == (Benchmark { threads, ..self }),
    {
        Benchmark { threads, ..self }
    }

    /// Registers an implementation to run.
    pub fn with(self, implementation: Implementation) -> (benchmark: Self)
        ensures
            benchmark.functions@ == self.functions@.push(implementation),
            benchmark == (Benchmark { functions: benchmark.functions, ..self }),
    {
        let mut functions: Vec<Implementation> = self.functions;
        functions.push(implementation);
        Benchmark {
            threads: self.threads,
            configs: self.configs,
            thread_start_timeout: self.thread_start_timeout,
            functions,
        }
    }

    /// The numbers of threads that the benchmark is run with: those it was told, or else one
    /// thread.
    pub open spec fn thread_counts(self) -> Seq<usize> {
        if self.threads@.len() == 0 {
            seq![1usize]
        } else {
            self.threads@
        }
    }

    /// Begins to execute the benchmark using all implementations, configurations, and thread
    /// counts.
    pub fn run(&self) -> (schedule: Schedule)
        ensures
            schedule.well_formed(),
            schedule.thread_counts() == self.thread_counts(),
            self.threads@.len() > 0 ==> schedule.thread_counts() == self.threads@,
            self.threads@.len() == 0 ==> schedule.thread_counts() == seq![1usize],
            schedule.configs() == self.configs@.len(),
            schedule.functions() == self.functions@.len(),
            schedule.position() == 0,
            !schedule.failed(),
    {
        let mut thread_counts: Vec<usize> = Vec::new();
        if self.threads.len() == 0 {
            thread_counts.push(1);
            assert(thread_counts@ =~= seq![1usize]);
        } else {
            let mut i: usize = 0;
            while i < self.threads.len()
                invariant
                    i <= self.threads@.len(),
                    thread_counts@ == self.threads@.take(i as int),
                decreases self.threads@.len() - i,
            {
                thread_counts.push(self.threads[i]);
                assert(self.threads@.take(i + 1) =~= self.threads@.take(i as int).push(
                    self.threads@[i as int],
                ));
                i += 1;
            }
            assert(self.threads@.take(i as int) =~= self.threads@);
        }
        Schedule::new(thread_counts, self.configs.len(), self.functions.len())
    }
}

/// What is to be done next in the course of a benchmark. Implementations and configurations are
/// given by their place.
#[derive(Clone, Copy, PartialEq, Eq, Structural, Debug)]
pub enum Action {
    /// Say that the implementation is about to be run.
    Announce { function: usize, config: usize, thread_count: usize },
    /// Let the implementation clean up resources. When `shutting_down` is true, no more
    /// benchmarks will be executed.
    Reset { function: usize, shutting_down: bool },
    /// Start the threads that measure.
    Measure { function: usize, config: usize, thread_count: usize },
    /// Signal the threads to start simultaneously.
    SignalThreads,
    /// Wait for the threads to end.
    JoinThreads,
    /// The benchmark is over.
    Finish,
}

/// The actions of one run, in their order.
#[derive(Clone, Copy, PartialEq, Eq, Structural, Debug)]
enum Stage {
    Announce,
    ResetBefore,
    Measure,
    Signal,
    Join,
    ResetAfter,
}

impl Stage {
    /// The place of the stage in a run.
    spec fn place(self) -> int {
        match self {
            Stage::Announce => 0,
            Stage::ResetBefore => 1,
            Stage::Measure => 2,
            Stage::Signal => 3,
            Stage::Join => 4,
            Stage::ResetAfter => 5,
        }
    }
}

/// The number of actions of one run.
#[verifier::inline]
pub open spec fn stages() -> int {
    6
}

/// The number of runs with so many thread counts, configurations and implementations.
pub open spec fn runs(threads: int, configs: int, functions: int) -> int {
    threads * configs * functions
}

/// The number of a run, given the places of its thread count, its configuration and its
/// implementation: for each thread count all configurations, and for each of these all
/// implementations.
pub open spec fn run_number(
    thread: int,
    config: int,
    function: int,
    configs: int,
    functions: int,
) -> int {
    (thread * configs + config) * functions + function
}

/// The action at a position of a benchmark.
pub open spec fn action_at(
    thread_counts: Seq<usize>,
    configs: int,
    functions: int,
    position: int,
) -> Action {
    let run = position / stages();
    let function = (run % functions) as usize;
    let config = ((run / functions) % configs) as usize;
    let thread_count = thread_counts[(run / functions) / configs];
    if position >= stages() * runs(thread_counts.len() as int, configs, functions) {
        Action::Finish
    } else if position % stages() == 0 {
        Action::Announce { function, config, thread_count }
    } else if position % stages() == 1 {
        Action::Reset { function, shutting_down: false }
    } else if position % stages() == 2 {
        Action::Measure { function, config, thread_count }
    } else if position % stages() == 3 {
        Action::SignalThreads
    } else if position % stages() == 4 {
        Action::JoinThreads
    } else {
        Action::Reset {
            function,
            shutting_down: run == runs(thread_counts.len() as int, configs, functions) - 1,
        }
    }
}

/// A benchmark under way.
pub struct Schedule {
    thread_counts: Vec<usize>,
    configs: usize,
    functions: usize,
    thread: usize,
    config: usize,
    function: usize,
    stage: Stage,
    over: bool,
    failed: bool,
}

impl Schedule {
    /// The numbers of threads that the benchmark is run with.
    pub closed spec fn thread_counts(self) -> Seq<usize> {
        self.thread_counts@
    }

    /// The number of configurations.
    pub closed spec fn configs(self) -> int {
        self.configs as int
    }

    /// The number of implementations.
    pub closed spec fn functions(self) -> int {
        self.functions as int
    }

    /// The number of actions in all.
    pub open spec fn total(self) -> int {
        stages() * runs(self.thread_counts().len() as int, self.configs(), self.functions())
    }

    /// The number of actions that were performed with success.
    pub closed spec fn position(self) -> int {
        if self.over {
            self.total()
        } else {
            stages() * run_number(
                self.thread as int,
                self.config as int,
                self.function as int,
                self.configs as int,
                self.functions as int,
            ) + self.stage.place()
        }
    }

    /// An action failed, which ended the benchmark.
    pub closed spec fn failed(self) -> bool {
        self.failed
    }

    /// While the benchmark is not over, there is a run under way.
    pub closed spec fn well_formed(self) -> bool {
        &&& !self.over ==> {
            &&& self.thread < self.thread_counts@.len()
            &&& self.config < self.configs
            &&& self.function < self.functions
        }
        &&& self.over ==> !self.failed
    }

    /// What is to be done next.
    pub open spec fn next_action(self) -> Action {
        if self.failed() {
            Action::Finish
        } else {
            action_at(self.thread_counts(), self.configs(), self.functions(), self.position())
        }
    }

    /// A benchmark at its beginning.
    fn new(thread_counts: Vec<usize>, configs: usize, functions: usize) -> (schedule: Self)
        ensures
            schedule.well_formed(),
            schedule.thread_counts() == thread_counts@,
            schedule.configs() == configs,
            schedule.functions() == functions,
            schedule.position() == 0,
            !schedule.failed(),
    {
        let over: bool = thread_counts.len() == 0 || configs == 0 || functions == 0;
        proof {
            let (t, c, f) = (thread_counts@.len() as int, configs as int, functions as int);
            assert(over ==> runs(t, c, f) == 0) by (nonlinear_arith)
                requires
                    over ==> t == 0 || c == 0 || f == 0,
            ;
            assert(run_number(0, 0, 0, c, f) == 0) by (nonlinear_arith);
        }
        Schedule {
            thread_counts,
            configs,
            functions,
            thread: 0,
            config: 0,
            function: 0,
            stage: Stage::Announce,
            over,
            failed: false,
        }
    }

    /// What is to be done next.
    pub fn action(&self) -> (action: Action)
        requires
            self.well_formed(),
        ensures
            action == self.next_action(),
    {
        if self.over || self.failed {
            return Action::Finish;
        }
        let (function, config) = (self.function, self.config);
        let thread_count: usize = self.thread_counts[self.thread];
        proof {
            lemma_run_number(
                self.thread as int,
                config as int,
                function as int,
                self.thread_counts@.len() as int,
                self.configs as int,
                self.functions as int,
            );
            lemma_position(self.position(), self.run(), self.stage.place());
        }
        match self.stage {
            Stage::Announce => Action::Announce { function, config, thread_count },
            Stage::ResetBefore => Action::Reset { function, shutting_down: false },
            Stage::Measure => Action::Measure { function, config, thread_count },
            Stage::Signal => Action::SignalThreads,
            Stage::Join => Action::JoinThreads,
            Stage::ResetAfter => Action::Reset { function, shutting_down: self.is_last_run() },
        }
    }

    /// The number of the run under way.
    spec fn run(self) -> int {
        run_number(
            self.thread as int,
            self.config as int,
            self.function as int,
            self.configs as int,
            self.functions as int,
        )
    }

    /// Whether no run comes after the one under way.
    fn is_last_run(&self) -> (last: bool)
        requires
            self.well_formed(),
            !self.over,
        ensures
            last == (self.run() == runs(
                self.thread_counts@.len() as int,
                self.configs as int,
                self.functions as int,
            ) - 1),
    {
        proof {
            lemma_last_run(
                self.thread as int,
                self.config as int,
                self.function as int,
                self.thread_counts@.len() as int,
                self.configs as int,
                self.functions as int,
            );
        }
        self.function == self.functions - 1 && self.config == self.configs - 1 && self.thread
            == self.thread_counts.len() - 1
    }

    /// Takes note of what came of the action. After a failure, which only a reset or a
    /// measurement can end in, nothing more is done.
    pub fn advance<Error>(&mut self, outcome: Result<(), Error>) -> (r: Result<(), Error>)
        requires
            old(self).well_formed(),
            !(old(self).next_action() is Finish),
            outcome is Err ==> old(self).next_action() is Reset || old(
                self,
            ).next_action() is Measure,
        ensures
            final(self).well_formed(),
            r == outcome,
            final(self).thread_counts() == old(self).thread_counts(),
            final(self).configs() == old(self).configs(),
            final(self).functions() == old(self).functions(),
            final(self).failed() == (outcome is Err),
            final(self).position() == old(self).position() + (if outcome is Ok {
                1int
            } else {
                0int
            }),
    {
        if outcome.is_err() {
            self.failed = true;
            return outcome;
        }
        match self.stage {
            Stage::Announce => {
                self.stage = Stage::ResetBefore;
            },
            Stage::ResetBefore => {
                self.stage = Stage::Measure;
            },
            Stage::Measure => {
                self.stage = Stage::Signal;
            },
            Stage::Signal => {
                self.stage = Stage::Join;
            },
            Stage::Join => {
                self.stage = Stage::ResetAfter;
            },
            Stage::ResetAfter => {
                self.next_run();
            },
        }
        outcome
    }

    /// Goes on to the next run.
    fn next_run(&mut self)
        requires
            old(self).well_formed(),
            !old(self).over,
            !old(self).failed,
            old(self).stage == Stage::ResetAfter,
        ensures
            final(self).well_formed(),
            final(self).thread_counts() == old(self).thread_counts(),
            final(self).configs() == old(self).configs(),
            final(self).functions() == old(self).functions(),
            !final(self).failed(),
            final(self).position() == old(self).position() + 1,
    {
        proof {
            lemma_next_run(
                self.thread as int,
                self.config as int,
                self.function as int,
                self.thread_counts@.len() as int,
                self.configs as int,
                self.functions as int,
            );
        }
        self.stage = Stage::Announce;
        if self.function < self.functions - 1 {
            self.function += 1;
        } else if self.config < self.configs - 1 {
            self.function = 0;
            self.config += 1;
        } else if self.thread < self.thread_counts.len() - 1 {
            self.function = 0;
            self.config = 0;
            self.thread += 1;
        } else {
            self.over = true;
        }
    }
}

/// The places that a run number stands for can be had back from it.
proof fn lemma_run_number(t: int, c: int, f: int, threads: int, configs: int, functions: int)
    requires
        0 <= t < threads,
        0 <= c < configs,
        0 <= f < functions,
    ensures
        0 <= run_number(t, c, f, configs, functions) < runs(threads, configs, functions),
        run_number(t, c, f, configs, functions) % functions == f,
        (run_number(t, c, f, configs, functions) / functions) % configs == c,
        (run_number(t, c, f, configs, functions) / functions) / configs == t,
{
    let run = run_number(t, c, f, configs, functions);
    let row = t * configs + c;
    assert(0 <= row) by (nonlinear_arith)
        requires
            0 <= t,
            0 <= c < configs,
            row == t * configs + c,
    ;
    assert(row + 1 <= threads * configs) by (nonlinear_arith)
        requires
            t + 1 <= threads,
            c + 1 <= configs,
            0 <= c,
            row == t * configs + c,
    ;
    assert(0 <= run) by (nonlinear_arith)
        requires
            0 <= row,
            0 <= f < functions,
            run == row * functions + f,
    ;
    assert(run + 1 <= (threads * configs) * functions) by (nonlinear_arith)
        requires
            row + 1 <= threads * configs,
            f + 1 <= functions,
            0 <= f,
            run == row * functions + f,
    ;
    vstd::arithmetic::div_mod::lemma_fundamental_div_mod_converse(run, functions, row, f);
    vstd::arithmetic::div_mod::lemma_fundamental_div_mod_converse(row, configs, t, c);
}

/// A position is had from its run and its stage, and they from it.
proof fn lemma_position(position: int, run: int, stage: int)
    requires
        position == stages() * run + stage,
        0 <= stage < stages(),
    ensures
        position / stages() == run,
        position % stages() == stage,
{
}

/// The last run is the one with the last of everything.
proof fn lemma_last_run(t: int, c: int, f: int, threads: int, configs: int, functions: int)
    requires
        0 <= t < threads,
        0 <= c < configs,
        0 <= f < functions,
    ensures
        run_number(t, c, f, configs, functions) == runs(threads, configs, functions) - 1 <==> (t
            == threads - 1 && c == configs - 1 && f == functions - 1),
{
    lemma_run_number(t, c, f, threads, configs, functions);
    lemma_run_number(threads - 1, configs - 1, functions - 1, threads, configs, functions);
    assert(run_number(threads - 1, configs - 1, functions - 1, configs, functions) == runs(
        threads,
        configs,
        functions,
    ) - 1) by (nonlinear_arith);
}

/// Run numbers count up: first through the implementations, then through the configurations, then
/// through the thread counts.
proof fn lemma_next_run(t: int, c: int, f: int, threads: int, configs: int, functions: int)
    requires
        0 <= t < threads,
        0 <= c < configs,
        0 <= f < functions,
    ensures
        run_number(t, c, f + 1, configs, functions) == run_number(t, c, f, configs, functions) + 1,
        f == functions - 1 ==> run_number(t, c + 1, 0, configs, functions) == run_number(
            t,
            c,
            f,
            configs,
            functions,
        ) + 1,
        f == functions - 1 && c == configs - 1 ==> run_number(t + 1, 0, 0, configs, functions)
            == run_number(t, c, f, configs, functions) + 1,
        f == functions - 1 && c == configs - 1 && t == threads - 1 ==> runs(
            threads,
            configs,
            functions,
        ) == run_number(t, c, f, configs, functions) + 1,
{
    let row = t * configs + c;
    assert((row + 1) * functions == row * functions + functions) by (nonlinear_arith);
    assert((t + 1) * configs == t * configs + configs) by (nonlinear_arith);
    lemma_last_run(t, c, f, threads, configs, functions);
}

/// Each implementation is measured with each configuration and each thread count.
pub proof fn lemma_every_combination_is_measured(
    thread_counts: Seq<usize>,
    configs: int,
    functions: int,
    thread: int,
    config: int,
    function: int,
)
    requires
        0 <= thread < thread_counts.len(),
        0 <= config < configs <= usize::MAX,
        0 <= function < functions <= usize::MAX,
    ensures
        action_at(
            thread_counts,
            configs,
            functions,
            stages() * run_number(thread, config, function, configs, functions) + 2,
        ) == (Action::Measure {
            function: function as usize,
            config: config as usize,
            thread_count: thread_counts[thread],
        }),
{
    lemma_run_number(thread, config, function, thread_counts.len() as int, configs, functions);
    let run = run_number(thread, config, function, configs, functions);
    lemma_position(stages() * run + 2, run, 2);
}

/// Nothing else is measured: a measurement is that of one thread count, one configuration and one
/// implementation, at their one place in the order.
pub proof fn lemma_every_measurement_is_of_one_combination(
    thread_counts: Seq<usize>,
    configs: int,
    functions: int,
    position: int,
) -> (places: (int, int, int))
    requires
        0 <= configs <= usize::MAX,
        0 <= functions <= usize::MAX,
        0 <= position,
        action_at(thread_counts, configs, functions, position) is Measure,
    ensures
        0 <= places.0 < thread_counts.len(),
        0 <= places.1 < configs,
        0 <= places.2 < functions,
        position == stages() * run_number(places.0, places.1, places.2, configs, functions) + 2,
        action_at(thread_counts, configs, functions, position) == (Action::Measure {
            function: places.2 as usize,
            config: places.1 as usize,
            thread_count: thread_counts[places.0],
        }),
{
    lemma_places(thread_counts.len() as int, configs, functions, position / stages())
}

/// Every run number stands for places.
proof fn lemma_places(threads: int, configs: int, functions: int, run: int) -> (places: (
    int,
    int,
    int,
))
    requires
        0 <= threads,
        0 <= configs,
        0 <= functions,
        0 <= run < runs(threads, configs, functions),
    ensures
        places == ((run / functions) / configs, (run / functions) % configs, run % functions),
        0 <= places.0 < threads,
        0 <= places.1 < configs,
        0 <= places.2 < functions,
        run == run_number(places.0, places.1, places.2, configs, functions),
{
    let rows = threads * configs;
    assert(functions > 0 && rows > 0) by (nonlinear_arith)
        requires
            0 < rows * functions,
            functions >= 0,
    ;
    assert(threads > 0 && configs > 0) by (nonlinear_arith)
        requires
            0 < threads * configs,
            threads >= 0,
            configs >= 0,
    ;
    let row = run / functions;
    let f = run % functions;
    let t = row / configs;
    let c = row % configs;
    vstd::arithmetic::div_mod::lemma_fundamental_div_mod(run, functions);
    vstd::arithmetic::div_mod::lemma_mod_bound(run, functions);
    vstd::arithmetic::div_mod::lemma_fundamental_div_mod(row, configs);
    vstd::arithmetic::div_mod::lemma_mod_bound(row, configs);
    vstd::arithmetic::div_mod::lemma_div_pos_is_pos(run, functions);
    vstd::arithmetic::div_mod::lemma_div_pos_is_pos(row, configs);
    assert(row < rows) by (nonlinear_arith)
        requires
            run == functions * row + f,
            0 <= f,
            run < rows * functions,
            functions > 0,
    ;
    assert(t < threads) by (nonlinear_arith)
        requires
            row == configs * t + c,
            0 <= c,
            row < threads * configs,
            configs > 0,
    ;
    assert(run_number(t, c, f, configs, functions) == run) by (nonlinear_arith)
        requires
            run == functions * row + f,
            row == configs * t + c,
    ;
    (t, c, f)
}

/// The thread counts are taken one after the other, in their order: all measurements with one come
/// before all measurements with the next.
pub proof fn lemma_thread_counts_in_order(
    configs: int,
    functions: int,
    first: (int, int, int),
    second: (int, int, int),
)
    requires
        0 <= first.0 < second.0,
        0 <= first.1 < configs,
        0 <= first.2 < functions,
        0 <= second.1 < configs,
        0 <= second.2 < functions,
    ensures
        run_number(first.0, first.1, first.2, configs, functions) < run_number(
            second.0,
            second.1,
            second.2,
            configs,
            functions,
        ),
{
    let (t, c, f) = first;
    let (u, d, g) = second;
    lemma_rows_in_order(t, c, u, d, configs);
    lemma_rows_in_order(t * configs + c, f, u * configs + d, g, functions);
}

/// A larger row comes later, whatever the columns.
proof fn lemma_rows_in_order(row: int, column: int, other_row: int, other_column: int, columns: int)
    requires
        row < other_row,
        column < columns,
        0 <= other_column,
        0 <= columns,
    ensures
        row * columns + column < other_row * columns + other_column,
{
    assert((row + 1) * columns <= other_row * columns) by (nonlinear_arith)
        requires
            row + 1 <= other_row,
            0 <= columns,
    ;
    assert((row + 1) * columns == row * columns + columns) by (nonlinear_arith);
}

/// Once an implementation is told that the benchmark is shutting down, no more benchmarks are
/// executed; indeed nothing is done any more.
pub proof fn lemma_nothing_is_done_after_shutting_down(
    thread_counts: Seq<usize>,
    configs: int,
    functions: int,
    position: int,
    later: int,
)
    requires
        0 <= position < later,
        action_at(thread_counts, configs, functions, position) is Reset,
        action_at(thread_counts, configs, functions, position)->shutting_down,
    ensures
        action_at(thread_counts, configs, functions, later) is Finish,
{
}

/// Around each measurement the implementation is reset: right before its threads are started, and
/// after they have ended.
pub proof fn lemma_measurements_stand_between_resets(
    thread_counts: Seq<usize>,
    configs: int,
    functions: int,
    position: int,
)
    requires
        0 <= position,
        action_at(thread_counts, configs, functions, position) is Measure,
    ensures
        ({
            let function = action_at(thread_counts, configs, functions, position)->Measure_function;
            &&& action_at(thread_counts, configs, functions, position - 1) == (Action::Reset {
                function,
                shutting_down: false,
            })
            &&& action_at(thread_counts, configs, functions, position + 1) is SignalThreads
            &&& action_at(thread_counts, configs, functions, position + 2) is JoinThreads
            &&& action_at(thread_counts, configs, functions, position + 3) is Reset
            &&& action_at(thread_counts, configs, functions, position + 3)->Reset_function
                == function
        }),
{
    let run = position / stages();
    lemma_position(position, run, 2);
    lemma_position(position - 1, run, 1);
    lemma_position(position + 1, run, 3);
    lemma_position(position + 2, run, 4);
    lemma_position(position + 3, run, 5);
}

/// A benchmark is run with the numbers of threads that it was given, in their order, or else with
/// one thread; and with all its configurations and implementations, from the beginning.
pub proof fn lemma_a_benchmark_runs_with_what_it_was_given<Config, Implementation>(
    benchmark: Benchmark<Config, Implementation>,
    schedule: Schedule,
)
    requires
        call_ensures(Benchmark::<Config, Implementation>::run, (&benchmark,), schedule),
    ensures
        benchmark.threads@.len() > 0 ==> schedule.thread_counts().len() == benchmark.threads@.len(),
        forall|t: int|
            0 <= t < benchmark.threads@.len() ==> #[trigger] schedule.thread_counts()[t]
                == benchmark.threads@[t],
        benchmark.threads@.len() == 0 ==> schedule.thread_counts() == seq![1usize],
        schedule.configs() == benchmark.configs@.len(),
        schedule.functions() == benchmark.functions@.len(),
        schedule.position() == 0,
        !schedule.failed(),
{
}

/// Told to use several numbers of threads, a benchmark is run with these, and keeps all else that it
/// was told.
pub proof fn lemma_each_number_of_threads_is_used<Config, Implementation>(
    benchmark: Benchmark<Config, Implementation>,
    threads: Vec<usize>,
    told: Benchmark<Config, Implementation>,
    schedule: Schedule,
)
    requires
        threads@.len() > 0,
        call_ensures(
            Benchmark::<Config, Implementation>::with_each_number_of_threads,
            (benchmark, threads),
            told,
        ),
        call_ensures(Benchmark::<Config, Implementation>::run, (&told,), schedule),
    ensures
        schedule.thread_counts() == threads@,
        told.configs == benchmark.configs,
        told.functions == benchmark.functions,
        told.thread_start_timeout == benchmark.thread_start_timeout,
{
}

/// Told to use one number of threads, a benchmark is run with that number alone.
pub proof fn lemma_one_number_of_threads_is_used<Config, Implementation>(
    benchmark: Benchmark<Config, Implementation>,
    number_of_threads: usize,
    told: Benchmark<Config, Implementation>,
    schedule: Schedule,
)
    requires
        call_ensures(
            Benchmark::<Config, Implementation>::with_number_of_threads,
            (benchmark, number_of_threads),
            told,
        ),
        call_ensures(Benchmark::<Config, Implementation>::run, (&told,), schedule),
    ensures
        schedule.thread_counts().len() == 1,
        schedule.thread_counts()[0] == number_of_threads,
        told.configs == benchmark.configs,
        told.functions == benchmark.functions,
        told.thread_start_timeout == benchmark.thread_start_timeout,
{
}

/// Unless told otherwise, threads may take fifteen seconds to start.
pub proof fn lemma_threads_may_take_fifteen_seconds_to_start<Config, Implementation>(
    configs: Vec<Config>,
    benchmark: Benchmark<Config, Implementation>,
    config: Config,
    other: Benchmark<Config, Implementation>,
)
    requires
        call_ensures(
            Benchmark::<Config, Implementation>::for_each_config,
            (configs,),
            benchmark,
        ),
        call_ensures(Benchmark::<Config, Implementation>::for_config, (config,), other),
    ensures
        benchmark.thread_start_timeout.secs == 15,
        benchmark.thread_start_timeout.subsec_nanos == 0,
        benchmark.configs@ == configs@,
        other.thread_start_timeout == benchmark.thread_start_timeout,
        other.configs@.len() == 1,
        other.configs@[0] == config,
{
}

/// While nothing has failed, a schedule says the actions of one run after the other: the run of an
/// implementation with a configuration and a number of threads has six, and comes after the runs of
/// all implementations before it, of all configurations before that one, and of all numbers of
/// threads before that one.
pub proof fn lemma_a_schedule_says_run_after_run(
    schedule: Schedule,
    thread: int,
    config: int,
    function: int,
    action: Action,
)
    requires
        call_ensures(Schedule::action, (&schedule,), action),
        !schedule.failed(),
        schedule.configs() <= usize::MAX,
        schedule.functions() <= usize::MAX,
        0 <= thread < schedule.thread_counts().len(),
        0 <= config < schedule.configs(),
        0 <= function < schedule.functions(),
    ensures
        ({
            let first = 6 * ((thread * schedule.configs() + config) * schedule.functions() + function);
            let thread_count = schedule.thread_counts()[thread];
            let last = thread == schedule.thread_counts().len() - 1 && config == schedule.configs() - 1
                && function == schedule.functions() - 1;
            let (f, c) = (function as usize, config as usize);
            &&& schedule.position() == first ==> action == (Action::Announce {
                function: f,
                config: c,
                thread_count,
            })
            &&& schedule.position() == first + 1 ==> action == (Action::Reset {
                function: f,
                shutting_down: false,
            })
            &&& schedule.position() == first + 2 ==> action == (Action::Measure {
                function: f,
                config: c,
                thread_count,
            })
            &&& schedule.position() == first + 3 ==> action == Action::SignalThreads
            &&& schedule.position() == first + 4 ==> action == Action::JoinThreads
            &&& schedule.position() == first + 5 ==> action == (Action::Reset {
                function: f,
                shutting_down: last,
            })
        }),
{
    let (configs, functions) = (schedule.configs(), schedule.functions());
    let threads = schedule.thread_counts().len() as int;
    let run = run_number(thread, config, function, configs, functions);
    lemma_run_number(thread, config, function, threads, configs, functions);
    lemma_last_run(thread, config, function, threads, configs, functions);
    let stage = schedule.position() - 6 * run;
    if 0 <= stage < 6 {
        lemma_position(schedule.position(), run, stage);
    }
}

/// A benchmark is over exactly when something failed, or when each combination has had its six
/// actions.
pub proof fn lemma_a_schedule_ends_after_all_runs(schedule: Schedule, action: Action)
    requires
        call_ensures(Schedule::action, (&schedule,), action),
    ensures
        action is Finish <==> schedule.failed() || schedule.position() >= 6 * (
        schedule.thread_counts().len() * schedule.configs() * schedule.functions()),
{
}

/// Of each number of threads, configuration and implementation that a benchmark was given there is a
/// measurement in its course, with that number of threads.
pub proof fn lemma_a_benchmark_measures_all_it_was_given<Config, Implementation>(
    benchmark: Benchmark<Config, Implementation>,
    schedule: Schedule,
    thread: int,
    config: int,
    function: int,
) -> (position: int)
    requires
        call_ensures(Benchmark::<Config, Implementation>::run, (&benchmark,), schedule),
        0 <= thread < benchmark.threads@.len(),
        0 <= config < benchmark.configs@.len() <= usize::MAX,
        0 <= function < benchmark.functions@.len() <= usize::MAX,
    ensures
        0 <= position < 6 * (benchmark.threads@.len() * benchmark.configs@.len()
            * benchmark.functions@.len()),
        action_at(
            schedule.thread_counts(),
            schedule.configs(),
            schedule.functions(),
            position,
        ) == (Action::Measure {
            function: function as usize,
            config: config as usize,
            thread_count: benchmark.threads@[thread],
        }),
{
    let (configs, functions) = (benchmark.configs@.len() as int, benchmark.functions@.len() as int);
    lemma_every_combination_is_measured(
        benchmark.threads@,
        configs,
        functions,
        thread,
        config,
        function,
    );
    lemma_run_number(
        thread,
        config,
        function,
        benchmark.threads@.len() as int,
        configs,
        functions,
    );
    stages() * run_number(thread, config, function, configs, functions) + 2
}

/// Success takes a schedule on by one action, and a failure ends it with nothing left to do. What the
/// benchmark is run with stays, and the outcome is handed on as it is.
pub proof fn lemma_success_goes_on_and_failure_ends<Error>(
    schedule: &mut Schedule,
    outcome: Result<(), Error>,
    r: Result<(), Error>,
)
    requires
        call_ensures(Schedule::advance::<Error>, (schedule, outcome), r),
    ensures
        r == outcome,
        outcome is Ok ==> !final(schedule).failed() && final(schedule).position() == old(
            schedule,
        ).position() + 1,
        outcome is Err ==> final(schedule).failed() && final(schedule).next_action()
            == Action::Finish,
        final(schedule).thread_counts() == old(schedule).thread_counts(),
        final(schedule).configs() == old(schedule).configs(),
        final(schedule).functions() == old(schedule).functions(),
{
}

/// An implementation that is registered is run behind those that were registered before, with all
/// else as it was.
pub proof fn lemma_implementations_are_run_as_registered<Config, Implementation>(
    benchmark: Benchmark<Config, Implementation>,
    implementation: Implementation,
    told: Benchmark<Config, Implementation>,
)
    requires
        call_ensures(
            Benchmark::<Config, Implementation>::with,
            (benchmark, implementation),
            told,
        ),
    ensures
        told.functions@.len() == benchmark.functions@.len() + 1,
        told.functions@.last() == implementation,
        forall|f: int|
            0 <= f < benchmark.functions@.len() ==> #[trigger] told.functions@[f]
                == benchmark.functions@[f],
        told.threads == benchmark.threads,
        told.configs == benchmark.configs,
        told.thread_start_timeout == benchmark.thread_start_timeout,
{
}

} // verus!
