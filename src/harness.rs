//! The benchmark harness: its configuration, the phase state machine that
//! decides when the routine runs, the samples it records, and their summary.
//!
//! The harness does not read a clock or call the routine itself. A driver
//! calls [`Bencher::step`] with the time elapsed since the last clock start
//! and carries out the [`Action`] it gets back; the routine reports its own
//! timings through [`Bencher::manual_millis`] and [`Bencher::manual_dur`].
//! Durations are nanoseconds.
use crate::statistics::{
    is_floor_sqrt, max, mean, mean_of, median, median_of, min, quartiles, quartiles_of,
    seq_max, seq_min, standard_deviation, variance, variance_of,
};
use vstd::prelude::*;

verus! {

/// Nanoseconds in a second.
pub const NANOS_PER_SEC: u128 = 1_000_000_000;

/// Nanoseconds in a millisecond.
pub const NANOS_PER_MILLI: u64 = 1_000_000;

/// The phase of a run.
#[derive(Clone, Copy, Debug, PartialEq, Eq, Structural)]
pub enum BencherState {
    Warmup,
    Bench,
    Abort,
}

/// Where the driver stands within the protocol of a run.
#[derive(Clone, Copy, Debug, PartialEq, Eq, Structural)]
pub enum Stage {
    /// Nothing has happened yet.
    WarmupStart,
    /// Warming up until the minimum warmup time has passed.
    WarmupTimed,
    /// Warming up until the minimum warmup count is reached.
    WarmupCounted,
    /// Measuring until the minimum measurement time has passed.
    BenchTimed,
    /// Measuring until the minimum measurement count is reached.
    BenchCounted,
    /// The run is over.
    Done,
}

/// What the driver has to do next.
#[derive(Clone, Copy, Debug, PartialEq, Eq, Structural)]
pub enum Action {
    /// Restart the clock whose elapsed time the next calls report.
    StartClock,
    /// Call the routine once.
    Invoke,
    /// The run is complete.
    Finish,
    /// The run was aborted: stop without calling the routine again.
    Fail,
}

/// The state of a harness as a mathematical value.
pub struct BencherModel {
    pub name: Seq<char>,
    pub durations: Seq<u64>,
    pub bench_min_secs: Option<u64>,
    pub bench_min_iters: Option<u64>,
    pub warmup_secs: Option<u64>,
    pub warmup_iters: Option<u64>,
    pub independent_variable: Option<u64>,
    pub state: BencherState,
    pub stage: Stage,
    /// Invocations made so far in the current phase.
    pub done: u64,
}

/// A benchmark harness.
pub struct Bencher {
    name: String,
    durations: Vec<u64>,
    bench_min_secs: Option<u64>,
    bench_min_iters: Option<u64>,
    warmup_secs: Option<u64>,
    warmup_iters: Option<u64>,
    independent_variable: Option<u64>,
    state: BencherState,
    stage: Stage,
    done: u64,
}

impl View for Bencher {
    type V = BencherModel;

    closed spec fn view(&self) -> BencherModel {
        BencherModel {
            name: self.name@,
            durations: self.durations@,
            bench_min_secs: self.bench_min_secs,
            bench_min_iters: self.bench_min_iters,
            warmup_secs: self.warmup_secs,
            warmup_iters: self.warmup_iters,
            independent_variable: self.independent_variable,
            state: self.state,
            stage: self.stage,
            done: self.done,
        }
    }
}

/// A harness that has just been made: nothing configured, nothing recorded.
pub open spec fn fresh(name: Seq<char>) -> BencherModel {
    BencherModel {
        name,
        durations: Seq::empty(),
        bench_min_secs: None,
        bench_min_iters: None,
        warmup_secs: None,
        warmup_iters: None,
        independent_variable: None,
        state: BencherState::Warmup,
        stage: Stage::WarmupStart,
        done: 0,
    }
}

/// A count of milliseconds in nanoseconds, saturated at `u64::MAX`.
pub open spec fn millis_to_nanos(millis: u64) -> u64 {
    if millis * NANOS_PER_MILLI > u64::MAX {
        u64::MAX
    } else {
        (millis * NANOS_PER_MILLI) as u64
    }
}

/// A reported duration is kept only while measuring.
pub open spec fn record(m: BencherModel, nanos: u64) -> BencherModel {
    if m.state == BencherState::Bench {
        BencherModel { durations: m.durations.push(nanos), ..m }
    } else {
        m
    }
}

/// An absent duration aborts the run; a present one is recorded.
pub open spec fn report(m: BencherModel, d: Option<u64>) -> BencherModel {
    match d {
        None => BencherModel { state: BencherState::Abort, ..m },
        Some(nanos) => record(m, nanos),
    }
}

/// `secs` seconds have not yet passed after `elapsed` nanoseconds.
pub open spec fn within(secs: u64, elapsed: u128) -> bool {
    (elapsed as int) < secs * NANOS_PER_SEC
}

/// One more invocation in the current phase, the count saturating.
pub open spec fn one_more(m: BencherModel) -> BencherModel {
    BencherModel { done: if m.done < u64::MAX { (m.done + 1) as u64 } else { m.done }, ..m }
}

/// Measuring until the minimum count is reached, then done.
pub open spec fn bench_counted_step(m: BencherModel) -> (BencherModel, Action) {
    match m.bench_min_iters {
        Some(n) if m.done < n => (one_more(m), Action::Invoke),
        _ => (BencherModel { stage: Stage::Done, ..m }, Action::Finish),
    }
}

/// Entering measurement: the timed part first where it is configured.
pub open spec fn bench_start_step(m: BencherModel) -> (BencherModel, Action) {
    let m = BencherModel { state: BencherState::Bench, done: 0, ..m };
    match m.bench_min_secs {
        Some(_) => (BencherModel { stage: Stage::BenchTimed, ..m }, Action::StartClock),
        None => bench_counted_step(BencherModel { stage: Stage::BenchCounted, ..m }),
    }
}

/// Warming up until the minimum count is reached (counting the timed
/// invocations), then measurement begins.
pub open spec fn warmup_counted_step(m: BencherModel) -> (BencherModel, Action) {
    match m.warmup_iters {
        Some(n) if m.done < n => (one_more(m), Action::Invoke),
        _ => bench_start_step(m),
    }
}

/// The transition of the run's state machine. `elapsed` is the time in
/// nanoseconds since the clock was last started; it matters in timed stages
/// only. An aborted run fails at once, whatever the stage.
pub open spec fn step_of(m: BencherModel, elapsed: u128) -> (BencherModel, Action) {
    if m.state == BencherState::Abort {
        (m, Action::Fail)
    } else {
        match m.stage {
            Stage::WarmupStart => match m.warmup_secs {
                Some(_) => (BencherModel { stage: Stage::WarmupTimed, ..m }, Action::StartClock),
                None => warmup_counted_step(BencherModel { stage: Stage::WarmupCounted, ..m }),
            },
            Stage::WarmupTimed => match m.warmup_secs {
                Some(s) if within(s, elapsed) => (one_more(m), Action::Invoke),
                _ => warmup_counted_step(BencherModel { stage: Stage::WarmupCounted, ..m }),
            },
            Stage::WarmupCounted => warmup_counted_step(m),
            Stage::BenchTimed => match m.bench_min_secs {
                Some(s) if within(s, elapsed) => (one_more(m), Action::Invoke),
                _ => bench_counted_step(BencherModel { stage: Stage::BenchCounted, ..m }),
            },
            Stage::BenchCounted => bench_counted_step(m),
            Stage::Done => (m, Action::Finish),
        }
    }
}

impl Bencher {
    /// A harness named `name`, with nothing configured and nothing recorded.
    pub fn default(name: &str) -> (r: Bencher)
        ensures
            r@ == fresh(name@),
    {
        Bencher {
            name: name.to_owned(),
            durations: Vec::new(),
            bench_min_secs: None,
            bench_min_iters: None,
            warmup_secs: None,
            warmup_iters: None,
            independent_variable: None,
            state: BencherState::Warmup,
            stage: Stage::WarmupStart,
            done: 0,
        }
    }

    /// A copy of the harness.
    fn snapshot(&self) -> (r: Bencher)
        ensures
            r@ == self@,
    {
        let mut durations: Vec<u64> = Vec::new();
        let mut i: usize = 0;
        while i < self.durations.len()
            invariant
                i <= self.durations@.len(),
                durations@ == self.durations@.subrange(0, i as int),
            decreases self.durations@.len() - i,
        {
            durations.push(self.durations[i]);
            i = i + 1;
            assert(durations@ =~= self.durations@.subrange(0, i as int));
        }
        assert(self.durations@.subrange(0, i as int) =~= self.durations@);
        Bencher {
            name: self.name.clone(),
            durations,
            bench_min_secs: self.bench_min_secs,
            bench_min_iters: self.bench_min_iters,
            warmup_secs: self.warmup_secs,
            warmup_iters: self.warmup_iters,
            independent_variable: self.independent_variable,
            state: self.state,
            stage: self.stage,
            done: self.done,
        }
    }

    /// Warm up for at least `secs` seconds.
    pub fn warmup_secs(&mut self, secs: u64) -> (r: Bencher)
        ensures
            final(self)@ == (BencherModel { warmup_secs: Some(secs), ..old(self)@ }),
            r@ == final(self)@,
    {
        self.warmup_secs = Some(secs);
        self.snapshot()
    }

    /// Warm up for at least `i` runs.
    pub fn warmup_iters(&mut self, i: u64) -> (r: Bencher)
        ensures
            final(self)@ == (BencherModel { warmup_iters: Some(i), ..old(self)@ }),
            r@ == final(self)@,
    {
        self.warmup_iters = Some(i);
        self.snapshot()
    }

    /// Measure for at least `secs` seconds.
    pub fn bench_min_secs(&mut self, secs: u64) -> (r: Bencher)
        ensures
            final(self)@ == (BencherModel { bench_min_secs: Some(secs), ..old(self)@ }),
            r@ == final(self)@,
    {
        self.bench_min_secs = Some(secs);
        self.snapshot()
    }

    /// Measure for at least `i` runs.
    pub fn bench_min_iters(&mut self, i: u64) -> (r: Bencher)
        ensures
            final(self)@ == (BencherModel { bench_min_iters: Some(i), ..old(self)@ }),
            r@ == final(self)@,
    {
        self.bench_min_iters = Some(i);
        self.snapshot()
    }

    /// Tag the summaries of this harness with the parameter value `u`.
    pub fn independent_variable(&mut self, u: u64) -> (r: Bencher)
        ensures
            final(self)@ == (BencherModel { independent_variable: Some(u), ..old(self)@ }),
            r@ == final(self)@,
    {
        self.independent_variable = Some(u);
        self.snapshot()
    }

    /// The current phase.
    pub fn state(&self) -> (r: BencherState)
        ensures
            r == self@.state,
    {
        self.state
    }

    /// The recorded samples, in nanoseconds, in the order they were taken.
    pub fn durations(&self) -> (r: &[u64])
        ensures
            r@ == self@.durations,
    {
        self.durations.as_slice()
    }

    /// Reports an elapsed time of `millis` milliseconds; it is recorded only
    /// while measuring. Past `u64::MAX` nanoseconds it is kept as `u64::MAX`.
    pub fn manual_millis(&mut self, millis: u64)
        ensures
            final(self)@ == record(old(self)@, millis_to_nanos(millis)),
    {
        let nanos = match millis.checked_mul(NANOS_PER_MILLI) {
            Some(n) => n,
            None => u64::MAX,
        };
        if self.state == BencherState::Bench {
            self.durations.push(nanos);
        }
    }

    /// Reports an elapsed time in nanoseconds: a present one is recorded
    /// while measuring, an absent one aborts the run.
    pub fn manual_dur(&mut self, d: Option<u64>)
        ensures
            final(self)@ == report(old(self)@, d),
    {
        match d {
            None => self.state = BencherState::Abort,
            Some(nanos) => {
                if self.state == BencherState::Bench {
                    self.durations.push(nanos);
                }
            },
        }
    }

    fn count_one(&mut self)
        ensures
            final(self)@ == one_more(old(self)@),
    {
        if self.done < u64::MAX {
            self.done = self.done + 1;
        }
    }

    fn bench_counted_step(&mut self) -> (r: Action)
        ensures
            (final(self)@, r) == bench_counted_step(old(self)@),
    {
        match self.bench_min_iters {
            Some(n) if self.done < n => {
                self.count_one();
                Action::Invoke
            },
            _ => {
                self.stage = Stage::Done;
                Action::Finish
            },
        }
    }

    fn bench_start_step(&mut self) -> (r: Action)
        ensures
            (final(self)@, r) == bench_start_step(old(self)@),
    {
        self.state = BencherState::Bench;
        self.done = 0;
        match self.bench_min_secs {
            Some(_) => {
                self.stage = Stage::BenchTimed;
                Action::StartClock
            },
            None => {
                self.stage = Stage::BenchCounted;
                self.bench_counted_step()
            },
        }
    }

    fn warmup_counted_step(&mut self) -> (r: Action)
        ensures
            (final(self)@, r) == warmup_counted_step(old(self)@),
    {
        match self.warmup_iters {
            Some(n) if self.done < n => {
                self.count_one();
                Action::Invoke
            },
            _ => self.bench_start_step(),
        }
    }

    /// Advances the run by one decision. `elapsed` is the time in nanoseconds
    /// since the clock was last started (as asked for by
    /// [`Action::StartClock`]). An aborted run answers [`Action::Fail`].
    pub fn step(&mut self, elapsed: u128) -> (r: Action)
        ensures
            (final(self)@, r) == step_of(old(self)@, elapsed),
    {
        if self.state == BencherState::Abort {
            return Action::Fail;
        }
        match self.stage {
            Stage::WarmupStart => match self.warmup_secs {
                Some(_) => {
                    self.stage = Stage::WarmupTimed;
                    Action::StartClock
                },
                None => {
                    self.stage = Stage::WarmupCounted;
                    self.warmup_counted_step()
                },
            },
            Stage::WarmupTimed => match self.warmup_secs {
                Some(s) if elapsed < s as u128 * NANOS_PER_SEC => {
                    self.count_one();
                    Action::Invoke
                },
                _ => {
                    self.stage = Stage::WarmupCounted;
                    self.warmup_counted_step()
                },
            },
            Stage::WarmupCounted => self.warmup_counted_step(),
            Stage::BenchTimed => match self.bench_min_secs {
                Some(s) if elapsed < s as u128 * NANOS_PER_SEC => {
                    self.count_one();
                    Action::Invoke
                },
                _ => {
                    self.stage = Stage::BenchCounted;
                    self.bench_counted_step()
                },
            },
            Stage::BenchCounted => self.bench_counted_step(),
            Stage::Done => Action::Finish,
        }
    }
}

/// The statistical summary of one run. Times are in nanoseconds; a statistic
/// that the samples leave undefined is 0.
pub struct Summary {
    pub name: String,
    /// Number of samples summarized.
    pub n: u64,
    pub min: u64,
    pub max: u64,
    pub mean: u64,
    pub median: u64,
    pub var: u128,
    pub std_dev: u128,
    pub quartiles: (u64, u64, u64),
    /// Interquartile range, `q3 - q1`.
    pub iqr: u64,
    pub independent_variable: Option<u64>,
}

/// A summary as a mathematical value.
pub struct SummaryModel {
    pub name: Seq<char>,
    pub n: u64,
    pub min: u64,
    pub max: u64,
    pub mean: u64,
    pub median: u64,
    pub var: u128,
    pub std_dev: u128,
    pub quartiles: (u64, u64, u64),
    pub iqr: u64,
    pub independent_variable: Option<u64>,
}

impl View for Summary {
    type V = SummaryModel;

    open spec fn view(&self) -> SummaryModel {
        SummaryModel {
            name: self.name@,
            n: self.n,
            min: self.min,
            max: self.max,
            mean: self.mean,
            median: self.median,
            var: self.var,
            std_dev: self.std_dev,
            quartiles: self.quartiles,
            iqr: self.iqr,
            independent_variable: self.independent_variable,
        }
    }
}

/// The square root of `x` rounded down.
pub open spec fn floor_sqrt_of(x: int) -> int {
    choose|r: int| is_floor_sqrt(r, x)
}

/// The rounded-down square root is unique.
proof fn lemma_floor_sqrt_unique(r: int, x: int)
    requires
        is_floor_sqrt(r, x),
    ensures
        floor_sqrt_of(x) == r,
{
    let q = floor_sqrt_of(x);
    assert(is_floor_sqrt(q, x));
    if q < r {
        assert((q + 1) * (q + 1) <= r * r) by (nonlinear_arith)
            requires
                0 <= q < r,
        ;
    } else if r < q {
        assert((r + 1) * (r + 1) <= q * q) by (nonlinear_arith)
            requires
                0 <= r < q,
        ;
    }
}

/// The summary of the samples recorded in `m`.
pub open spec fn summary_of(m: BencherModel) -> SummaryModel {
    let d = m.durations;
    let q = match quartiles_of(d) {
        Some(q) => q,
        None => (0u64, 0u64, 0u64),
    };
    let var = match variance_of(d, None) {
        Some(v) => v,
        None => 0u128,
    };
    SummaryModel {
        name: m.name,
        n: d.len() as u64,
        min: if d.len() == 0 { 0 } else { seq_min(d) },
        max: if d.len() == 0 { 0 } else { seq_max(d) },
        mean: if d.len() == 0 { 0 } else { mean_of(d) },
        median: match median_of(d) {
            Some(x) => x,
            None => 0,
        },
        var,
        std_dev: floor_sqrt_of(var as int) as u128,
        quartiles: q,
        iqr: (q.2 - q.0) as u64,
        independent_variable: m.independent_variable,
    }
}

impl Bencher {
    /// The summary of the samples recorded so far. It leaves the harness as
    /// it is.
    pub fn summary(&self) -> (r: Summary)
        ensures
            r@ == summary_of(self@),
    {
        let secs = self.durations.as_slice();
        let quartiles = match quartiles(secs) {
            Some(q) => q,
            None => (0, 0, 0),
        };
        proof {
            if secs@.len() >= 2 {
                crate::statistics::lemma_quartiles_ordered(secs@);
            }
        }
        let iqr = quartiles.2 - quartiles.0;
        let var = match variance(secs, None) {
            Some(v) => v,
            None => 0,
        };
        let std_dev = match standard_deviation(secs, None) {
            Some(s) => s,
            None => 0,
        };
        proof {
            if secs@.len() <= 1 {
                assert(is_floor_sqrt(0, 0));
            }
            lemma_floor_sqrt_unique(std_dev as int, var as int);
        }
        Summary {
            name: self.name.clone(),
            n: secs.len() as u64,
            min: match min(secs) {
                Some(x) => x,
                None => 0,
            },
            max: match max(secs) {
                Some(x) => x,
                None => 0,
            },
            mean: match mean(secs) {
                Some(x) => x,
                None => 0,
            },
            median: match median(secs) {
                Some(x) => x,
                None => 0,
            },
            var,
            std_dev,
            quartiles,
            iqr,
            independent_variable: self.independent_variable,
        }
    }
}

/// The summary is a function of the harness alone: two summaries of one
/// harness with no run in between are equal in every field.
pub proof fn lemma_summary_repeatable(b: Bencher, r1: Summary, r2: Summary)
    requires
        r1@ == summary_of(b@),
        r2@ == summary_of(b@),
    ensures
        r1@ == r2@,
{
}

/// A harness that has recorded nothing, in particular one that was never
/// run, summarizes to a count of 0 with every statistic 0.
pub proof fn lemma_unrun_summary_is_empty(m: BencherModel)
    requires
        m.durations.len() == 0,
    ensures
        summary_of(m).n == 0,
        summary_of(m).min == 0,
        summary_of(m).max == 0,
        summary_of(m).mean == 0,
        summary_of(m).median == 0,
        summary_of(m).var == 0,
        summary_of(m).std_dev == 0,
        summary_of(m).quartiles == (0u64, 0u64, 0u64),
        summary_of(m).iqr == 0,
{
    assert(is_floor_sqrt(0, 0));
    lemma_floor_sqrt_unique(0, 0);
    let t = crate::statistics::sorted_seq(m.durations);
    assert(t.len() == 0);
}

/// One round of a driver without a clock: a step at elapsed time 0 and,
/// where it asks for an invocation, the routine's report `d`.
pub open spec fn round(m: BencherModel, d: Option<u64>) -> BencherModel {
    let (m1, a) = step_of(m, 0);
    if a == Action::Invoke {
        report(m1, d)
    } else {
        m1
    }
}

/// `k` rounds from `m`, the routine reporting `r(j)` in round `j`.
pub open spec fn rounds(m: BencherModel, r: spec_fn(nat) -> Option<u64>, k: nat) -> BencherModel
    decreases k,
{
    if k == 0 {
        m
    } else {
        round(rounds(m, r, (k - 1) as nat), r(k))
    }
}

/// A harness about to run, with no clock threshold configured.
pub open spec fn untimed_start(m: BencherModel) -> bool {
    &&& m.warmup_secs.is_none()
    &&& m.bench_min_secs.is_none()
    &&& m.state == BencherState::Warmup
    &&& m.stage == Stage::WarmupStart
    &&& m.done == 0
}

proof fn lemma_warmup_prefix(m: BencherModel, r: spec_fn(nat) -> Option<u64>, n: u64, k: nat)
    requires
        untimed_start(m),
        m.warmup_iters == Some(n),
        1 <= k <= n,
        forall|j: nat| 1 <= j <= n ==> (#[trigger] r(j)).is_some(),
    ensures
        rounds(m, r, k) == (BencherModel { stage: Stage::WarmupCounted, done: k as u64, ..m }),
    decreases k,
{
    assert(r(k).is_some());
    let p = rounds(m, r, (k - 1) as nat);
    if k > 1 {
        lemma_warmup_prefix(m, r, n, (k - 1) as nat);
    } else {
        assert(p == m);
        assert(step_of(m, 0).0 == (BencherModel { stage: Stage::WarmupCounted, done: 1, ..m }));
    }
    assert(rounds(m, r, k) == round(p, r(k)));
}

/// With a minimum warmup count of `n` and no minimum times, the routine is
/// called exactly `n` times while warming up (as long as it reports a
/// duration), and the next step enters measurement.
pub proof fn lemma_warmup_invocations(m: BencherModel, r: spec_fn(nat) -> Option<u64>, n: u64)
    requires
        untimed_start(m),
        m.warmup_iters == Some(n),
        forall|j: nat| 1 <= j <= n ==> (#[trigger] r(j)).is_some(),
    ensures
        forall|k: nat|
            k < n ==> (#[trigger] step_of(rounds(m, r, k), 0)).1 == Action::Invoke
                && step_of(rounds(m, r, k), 0).0.state == BencherState::Warmup,
        step_of(rounds(m, r, n as nat), 0).0.state == BencherState::Bench,
{
    assert forall|k: nat| k < n implies (#[trigger] step_of(rounds(m, r, k), 0)).1
        == Action::Invoke && step_of(rounds(m, r, k), 0).0.state == BencherState::Warmup by {
        if k >= 1 {
            lemma_warmup_prefix(m, r, n, k);
        }
    }
    if n >= 1 {
        lemma_warmup_prefix(m, r, n, n as nat);
    }
}

/// A harness about to run that only has a minimum measurement count.
pub open spec fn counted_start(m: BencherModel, n: u64) -> bool {
    &&& untimed_start(m)
    &&& m.warmup_iters.is_none()
    &&& m.bench_min_iters == Some(n)
}

/// The durations that the first `k` rounds report.
pub open spec fn reported(r: spec_fn(nat) -> Option<u64>, k: nat) -> Seq<u64> {
    Seq::new(k, |i: int| r((i + 1) as nat).unwrap())
}

proof fn lemma_measure_prefix(m: BencherModel, r: spec_fn(nat) -> Option<u64>, n: u64, k: nat)
    requires
        counted_start(m, n),
        m.durations.len() == 0,
        1 <= k <= n,
        forall|j: nat| 1 <= j <= k ==> (#[trigger] r(j)).is_some(),
    ensures
        rounds(m, r, k) == (BencherModel {
            state: BencherState::Bench,
            stage: Stage::BenchCounted,
            done: k as u64,
            durations: reported(r, k),
            ..m
        }),
    decreases k,
{
    assert(r(k).is_some());
    if k > 1 {
        lemma_measure_prefix(m, r, n, (k - 1) as nat);
        assert(reported(r, (k - 1) as nat).push(r(k).unwrap()) =~= reported(r, k));
    } else {
        assert(m.durations.push(r(1).unwrap()) =~= reported(r, 1));
    }
}

/// With a minimum measurement count of `n` and nothing else configured, a
/// routine that always reports a duration is called `n` times, the run then
/// finishes, and exactly the `n` reported durations are recorded.
pub proof fn lemma_measure_records_each(m: BencherModel, r: spec_fn(nat) -> Option<u64>, n: u64)
    requires
        counted_start(m, n),
        m.durations.len() == 0,
        forall|j: nat| 1 <= j <= n ==> (#[trigger] r(j)).is_some(),
    ensures
        forall|k: nat| k < n ==> (#[trigger] step_of(rounds(m, r, k), 0)).1 == Action::Invoke,
        step_of(rounds(m, r, n as nat), 0).1 == Action::Finish,
        rounds(m, r, n as nat).durations == reported(r, n as nat),
        rounds(m, r, n as nat).durations.len() == n,
{
    assert forall|k: nat| k < n implies (#[trigger] step_of(rounds(m, r, k), 0)).1
        == Action::Invoke by {
        if k >= 1 {
            lemma_measure_prefix(m, r, n, k);
        }
    }
    if n >= 1 {
        lemma_measure_prefix(m, r, n, n as nat);
    } else {
        assert(m.durations =~= reported(r, 0));
    }
}

/// With a minimum measurement count of `n` and nothing else configured, a
/// routine that reports an absent duration in its call `a <= n` (and a
/// duration before) leaves the run aborted with the `a - 1` earlier
/// durations recorded, and the next step fails.
pub proof fn lemma_absent_duration_aborts(
    m: BencherModel,
    r: spec_fn(nat) -> Option<u64>,
    n: u64,
    a: nat,
)
    requires
        counted_start(m, n),
        m.durations.len() == 0,
        1 <= a <= n,
        forall|j: nat| 1 <= j < a ==> (#[trigger] r(j)).is_some(),
        r(a).is_none(),
    ensures
        rounds(m, r, a).state == BencherState::Abort,
        rounds(m, r, a).durations == reported(r, (a - 1) as nat),
        rounds(m, r, a).durations.len() == a - 1,
        step_of(rounds(m, r, a), 0) == (rounds(m, r, a), Action::Fail),
{
    let p = rounds(m, r, (a - 1) as nat);
    if a > 1 {
        lemma_measure_prefix(m, r, n, (a - 1) as nat);
        assert(step_of(p, 0).1 == Action::Invoke);
    } else {
        assert(p == m);
        assert(m.durations =~= reported(r, 0));
        assert(step_of(m, 0).1 == Action::Invoke);
    }
    assert(rounds(m, r, a) == round(p, r(a)));
}

} // verus!
