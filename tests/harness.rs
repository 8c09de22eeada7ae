use bench::harness::{Action, Bencher, BencherState};

// Drives a run with no clock: every elapsed time is 0. `report` gives what
// the routine reports on its k-th call (counting from 1); the result is
// the calls made while warming up, the calls made while measuring, and the
// final action.
fn drive(b: &mut Bencher, report: &dyn Fn(u64) -> Option<u64>) -> (u64, u64, Action) {
    let mut warm: u64 = 0;
    let mut meas: u64 = 0;
    let mut calls: u64 = 0;
    loop {
        let a = b.step(0);
        match a {
            Action::Invoke => {
                calls += 1;
                if b.state() == BencherState::Warmup {
                    warm += 1;
                } else {
                    meas += 1;
                }
                b.manual_dur(report(calls));
            }
            Action::StartClock => {}
            _ => return (warm, meas, a),
        }
        assert!(calls < 1000);
    }
}

#[test]
fn warmup_iterations_invoke_routine_exactly() {
    let mut b = Bencher::default("w");
    b.warmup_iters(3);
    for _ in 0..3 {
        assert_eq!(b.step(0), Action::Invoke);
        assert_eq!(b.state(), BencherState::Warmup);
    }
    assert_eq!(b.step(0), Action::Finish);
    assert_eq!(b.state(), BencherState::Bench);
}

#[test]
fn measurement_iterations_record_each_sample() {
    let mut b = Bencher::default("m");
    b.bench_min_iters(5);
    let (warm, meas, last) = drive(&mut b, &|_| Some(1_000));
    assert_eq!((warm, meas, last), (0, 5, Action::Finish));
    assert_eq!(b.summary().n, 5);
    assert_eq!(b.durations(), &[1_000, 1_000, 1_000, 1_000, 1_000][..]);
}

#[test]
fn absent_duration_aborts_run() {
    let mut b = Bencher::default("a");
    b.bench_min_iters(5);
    let (_, meas, last) = drive(&mut b, &|k| if k == 3 { None } else { Some(10) });
    assert_eq!(meas, 3);
    assert_eq!(last, Action::Fail);
    assert_eq!(b.state(), BencherState::Abort);
    assert_eq!(b.durations().len(), 2);
    assert_eq!(b.step(0), Action::Fail);
}

#[test]
fn warmup_samples_are_discarded() {
    let mut b = Bencher::default("d");
    b.warmup_iters(2);
    b.bench_min_iters(3);
    let (warm, meas, last) = drive(&mut b, &|k| Some(k));
    assert_eq!((warm, meas, last), (2, 3, Action::Finish));
    assert_eq!(b.durations(), &[3, 4, 5][..]);
}

#[test]
fn nothing_configured_runs_nothing() {
    let mut b = Bencher::default("n");
    assert_eq!(b.step(0), Action::Finish);
    assert_eq!(b.state(), BencherState::Bench);
    assert_eq!(b.step(0), Action::Finish);
}

#[test]
fn zero_thresholds_are_already_met() {
    let mut b = Bencher::default("z");
    b.warmup_secs(0);
    b.warmup_iters(0);
    b.bench_min_secs(0);
    b.bench_min_iters(0);
    assert_eq!(b.step(0), Action::StartClock);
    assert_eq!(b.step(0), Action::StartClock);
    assert_eq!(b.state(), BencherState::Bench);
    assert_eq!(b.step(0), Action::Finish);
}

#[test]
fn timed_phases_follow_elapsed_time() {
    let mut b = Bencher::default("t");
    b.warmup_secs(1);
    b.warmup_iters(3);
    b.bench_min_secs(2);
    b.bench_min_iters(1);
    assert_eq!(b.step(0), Action::StartClock);
    assert_eq!(b.step(0), Action::Invoke);
    assert_eq!(b.step(999_999_999), Action::Invoke);
    // One second has passed: one more counted call brings the warmup to three.
    assert_eq!(b.step(1_000_000_000), Action::Invoke);
    assert_eq!(b.state(), BencherState::Warmup);
    assert_eq!(b.step(0), Action::StartClock);
    assert_eq!(b.state(), BencherState::Bench);
    assert_eq!(b.step(1_999_999_999), Action::Invoke);
    b.manual_millis(4);
    // The timed call already meets the minimum count.
    assert_eq!(b.step(2_000_000_000), Action::Finish);
    assert_eq!(b.durations(), &[4_000_000][..]);
}

#[test]
fn manual_millis_only_while_measuring() {
    let mut b = Bencher::default("ms");
    b.warmup_iters(1);
    b.bench_min_iters(1);
    assert_eq!(b.step(0), Action::Invoke);
    b.manual_millis(7);
    assert_eq!(b.durations().len(), 0);
    assert_eq!(b.step(0), Action::Invoke);
    b.manual_millis(7);
    b.manual_millis(u64::MAX);
    assert_eq!(b.durations(), &[7_000_000, u64::MAX][..]);
}

#[test]
fn absent_duration_during_warmup_fails_run() {
    let mut b = Bencher::default("aw");
    b.warmup_iters(2);
    assert_eq!(b.step(0), Action::Invoke);
    b.manual_dur(None);
    assert_eq!(b.step(0), Action::Fail);
    assert_eq!(b.durations().len(), 0);
}

#[test]
fn setters_return_configured_copy() {
    let mut b = Bencher::default("s");
    let c = b.independent_variable(42);
    assert_eq!(c.summary().independent_variable, Some(42));
    assert_eq!(b.summary().independent_variable, Some(42));
    b.independent_variable(7);
    assert_eq!(b.summary().independent_variable, Some(7));
    assert_eq!(c.summary().independent_variable, Some(42));
}

#[test]
fn summary_twice_is_identical() {
    let mut b = Bencher::default("twice");
    b.bench_min_iters(4);
    drive(&mut b, &|k| Some(k * 10));
    let s1 = b.summary();
    let s2 = b.summary();
    assert_eq!(s1.name, s2.name);
    assert_eq!(
        (s1.n, s1.min, s1.max, s1.mean, s1.median, s1.var, s1.std_dev, s1.quartiles, s1.iqr),
        (s2.n, s2.min, s2.max, s2.mean, s2.median, s2.var, s2.std_dev, s2.quartiles, s2.iqr)
    );
    assert_eq!(s1.independent_variable, s2.independent_variable);
}

#[test]
fn unrun_summary_is_empty() {
    let b = Bencher::default("idle");
    let s = b.summary();
    assert_eq!(s.name, "idle");
    assert_eq!(s.n, 0);
    assert_eq!((s.min, s.max, s.mean, s.median), (0, 0, 0, 0));
    assert_eq!((s.var, s.std_dev, s.iqr), (0, 0, 0));
    assert_eq!(s.quartiles, (0, 0, 0));
    assert_eq!(s.independent_variable, None);
}

#[test]
fn summary_of_recorded_samples() {
    let mut b = Bencher::default("sum");
    b.bench_min_iters(5);
    b.independent_variable(100);
    drive(&mut b, &|k| Some([5, 1, 4, 2, 3][(k - 1) as usize]));
    let s = b.summary();
    assert_eq!(s.name, "sum");
    assert_eq!(s.n, 5);
    assert_eq!((s.min, s.max, s.mean, s.median), (1, 5, 3, 3));
    assert_eq!(s.quartiles, (1, 3, 4));
    assert_eq!(s.iqr, 3);
    assert_eq!(s.var, 2);
    assert_eq!(s.std_dev, 1);
    assert_eq!(s.independent_variable, Some(100));
}
