use timings::{Action, Benchmark, Schedule, StartTimeout};

/// Performs all actions with success.
fn actions(schedule: &mut Schedule) -> Vec<Action> {
    let mut performed = Vec::new();
    loop {
        let action = schedule.action();
        if action == Action::Finish {
            return performed;
        }
        performed.push(action);
        assert_eq!(schedule.advance::<u8>(Ok(())), Ok(()));
    }
}

fn measured(actions: &[Action]) -> Vec<(usize, usize, usize)> {
    let mut measured = Vec::new();
    for action in actions {
        if let Action::Measure { function, config, thread_count } = action {
            measured.push((*thread_count, *config, *function));
        }
    }
    measured
}

#[test]
fn one_run_has_its_actions_in_order() {
    let benchmark = Benchmark::<(), &str>::default().with("implementation");
    let mut schedule = benchmark.run();
    assert_eq!(
        actions(&mut schedule),
        vec![
            Action::Announce { function: 0, config: 0, thread_count: 1 },
            Action::Reset { function: 0, shutting_down: false },
            Action::Measure { function: 0, config: 0, thread_count: 1 },
            Action::SignalThreads,
            Action::JoinThreads,
            Action::Reset { function: 0, shutting_down: true },
        ]
    );
    assert_eq!(schedule.action(), Action::Finish);
}

#[test]
fn each_number_of_threads_is_used_in_turn() {
    let benchmark = Benchmark::<(), u8>::default()
        .with_each_number_of_threads(vec![1, 2, 3])
        .with(0);
    assert_eq!(
        measured(&actions(&mut benchmark.run())),
        vec![(1, 0, 0), (2, 0, 0), (3, 0, 0)]
    );
}

#[test]
fn every_combination_is_measured_once() {
    let benchmark = Benchmark::for_each_config(vec!["x", "y", "z"])
        .with_each_number_of_threads(vec![4, 8])
        .with('a')
        .with('b');
    let mut expected = Vec::new();
    for thread_count in [4, 8] {
        for config in 0..3 {
            for function in 0..2 {
                expected.push((thread_count, config, function));
            }
        }
    }
    let actions = actions(&mut benchmark.run());
    assert_eq!(actions.len(), 72);
    assert_eq!(measured(&actions), expected);
}

#[test]
fn nothing_is_measured_after_shutting_down() {
    let benchmark = Benchmark::for_each_config(vec![1, 2])
        .with_each_number_of_threads(vec![1, 2])
        .with('a')
        .with('b');
    let actions = actions(&mut benchmark.run());
    let shutdowns: Vec<usize> = (0..actions.len())
        .filter(|&i| matches!(actions[i], Action::Reset { shutting_down: true, .. }))
        .collect();
    assert_eq!(shutdowns, vec![actions.len() - 1]);
    for i in 0..actions.len() {
        if let Action::Measure { function, .. } = actions[i] {
            assert_eq!(actions[i - 1], Action::Reset { function, shutting_down: false });
            assert_eq!(actions[i + 1], Action::SignalThreads);
            assert_eq!(actions[i + 2], Action::JoinThreads);
            assert!(matches!(actions[i + 3], Action::Reset { function: f, .. } if f == function));
        }
    }
}

#[test]
fn a_failure_ends_the_benchmark() {
    let benchmark = Benchmark::<(), u8>::default().with(0).with(1);
    for failing in [1, 2, 5] {
        let mut schedule = benchmark.run();
        for _ in 0..failing {
            assert_eq!(schedule.advance::<&str>(Ok(())), Ok(()));
        }
        assert!(matches!(
            schedule.action(),
            Action::Reset { .. } | Action::Measure { .. }
        ));
        assert_eq!(schedule.advance(Err("broken")), Err("broken"));
        assert_eq!(schedule.action(), Action::Finish);
    }
}

#[test]
fn nothing_to_run_is_over_at_once() {
    assert_eq!(Benchmark::<(), u8>::default().run().action(), Action::Finish);
    let benchmark = Benchmark::<u8, u8>::for_each_config(Vec::new()).with(1);
    assert_eq!(benchmark.run().action(), Action::Finish);
}

#[test]
fn a_benchmark_is_put_together() {
    let benchmark = Benchmark::for_config("config").with(1u8);
    assert_eq!(benchmark.threads, Vec::<usize>::new());
    assert_eq!(benchmark.configs, vec!["config"]);
    assert_eq!(benchmark.functions, vec![1]);
    assert_eq!(
        benchmark.thread_start_timeout,
        StartTimeout { secs: 15, subsec_nanos: 0 }
    );
    let timeout = StartTimeout { secs: 0, subsec_nanos: 9 };
    let benchmark = benchmark
        .with_thread_start_timeout(timeout)
        .with_number_of_threads(6)
        .with(2);
    assert_eq!(benchmark.thread_start_timeout, timeout);
    assert_eq!(benchmark.threads, vec![6]);
    assert_eq!(benchmark.functions, vec![1, 2]);
    assert_eq!(benchmark.configs, vec!["config"]);
}
