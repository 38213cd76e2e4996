use vstd::prelude::*;

use crate::duration::{lemma_duration_range, Duration};
use crate::telemetry::{
    all_latency_metrics, latency_metric_index, percentile_of, summary_of, HistogramSummary, LatencyMetric,
    Telemetry,
};

verus! {

broadcast use lemma_duration_range;

/// An end-to-end scenario whose duration is budgeted.
#[derive(Debug, Clone, Copy, PartialEq, Eq, PartialOrd, Ord, Hash, Structural)]
pub enum ScenarioMetric {
    ColdStart,
    WarmStart,
    FirstResult,
    FullResult,
    DirectoryOpen,
    VisibleThumbnailCompletion,
}

/// Number of scenario metrics.
pub const SCENARIO_METRIC_COUNT: usize = 6;

/// The position of a scenario in `ScenarioMetric::ALL`.
pub open spec fn scenario_metric_index(metric: ScenarioMetric) -> int {
    match metric {
        ScenarioMetric::ColdStart => 0,
        ScenarioMetric::WarmStart => 1,
        ScenarioMetric::FirstResult => 2,
        ScenarioMetric::FullResult => 3,
        ScenarioMetric::DirectoryOpen => 4,
        ScenarioMetric::VisibleThumbnailCompletion => 5,
    }
}

/// The scenarios in their canonical order.
pub open spec fn all_scenario_metrics() -> Seq<ScenarioMetric> {
    seq![
        ScenarioMetric::ColdStart,
        ScenarioMetric::WarmStart,
        ScenarioMetric::FirstResult,
        ScenarioMetric::FullResult,
        ScenarioMetric::DirectoryOpen,
        ScenarioMetric::VisibleThumbnailCompletion,
    ]
}

/// The stable name of a scenario.
pub open spec fn scenario_metric_name(metric: ScenarioMetric) -> Seq<char> {
    match metric {
        ScenarioMetric::ColdStart => "cold_start"@,
        ScenarioMetric::WarmStart => "warm_start"@,
        ScenarioMetric::FirstResult => "first_result"@,
        ScenarioMetric::FullResult => "full_result"@,
        ScenarioMetric::DirectoryOpen => "directory_open"@,
        ScenarioMetric::VisibleThumbnailCompletion => "visible_thumbnail_completion"@,
    }
}

impl ScenarioMetric {
    pub const ALL: [ScenarioMetric; 6] = [
        ScenarioMetric::ColdStart,
        ScenarioMetric::WarmStart,
        ScenarioMetric::FirstResult,
        ScenarioMetric::FullResult,
        ScenarioMetric::DirectoryOpen,
        ScenarioMetric::VisibleThumbnailCompletion,
    ];

    /// The scenario's stable name.
    pub fn as_str(self) -> (s: &'static str)
        ensures
            s@ == scenario_metric_name(self),
    {
        match self {
            ScenarioMetric::ColdStart => "cold_start",
            ScenarioMetric::WarmStart => "warm_start",
            ScenarioMetric::FirstResult => "first_result",
            ScenarioMetric::FullResult => "full_result",
            ScenarioMetric::DirectoryOpen => "directory_open",
            ScenarioMetric::VisibleThumbnailCompletion => "visible_thumbnail_completion",
        }
    }

    /// The scenario's position in `ALL`.
    pub fn index(self) -> (i: usize)
        ensures
            i == scenario_metric_index(self),
            all_scenario_metrics()[i as int] == self,
    {
        match self {
            ScenarioMetric::ColdStart => 0,
            ScenarioMetric::WarmStart => 1,
            ScenarioMetric::FirstResult => 2,
            ScenarioMetric::FullResult => 3,
            ScenarioMetric::DirectoryOpen => 4,
            ScenarioMetric::VisibleThumbnailCompletion => 5,
        }
    }
}

fn scenario_at(i: usize) -> (m: ScenarioMetric)
    requires
        i < SCENARIO_METRIC_COUNT,
    ensures
        m == all_scenario_metrics()[i as int],
        scenario_metric_index(m) == i,
{
    match i {
        0 => ScenarioMetric::ColdStart,
        1 => ScenarioMetric::WarmStart,
        2 => ScenarioMetric::FirstResult,
        3 => ScenarioMetric::FullResult,
        4 => ScenarioMetric::DirectoryOpen,
        _ => ScenarioMetric::VisibleThumbnailCompletion,
    }
}

fn latency_metric_at(i: usize) -> (m: LatencyMetric)
    requires
        i < 10,
    ensures
        m == all_latency_metrics()[i as int],
        latency_metric_index(m) == i,
{
    match i {
        0 => LatencyMetric::Navigation,
        1 => LatencyMetric::Selection,
        2 => LatencyMetric::Rename,
        3 => LatencyMetric::SearchKeystroke,
        4 => LatencyMetric::ResultStreaming,
        5 => LatencyMetric::ThumbnailDisplay,
        6 => LatencyMetric::PreviewOpen,
        7 => LatencyMetric::CopyStart,
        8 => LatencyMetric::Cancel,
        _ => LatencyMetric::WindowRender,
    }
}

/// Percentile targets for one latency metric.
#[derive(Debug, Clone, Copy, PartialEq, Eq)]
pub struct LatencyBudget {
    pub p50: Duration,
    pub p95: Duration,
    pub p99: Duration,
}

/// A latency budget is ordered: `p50 <= p95 <= p99`.
pub open spec fn latency_budget_ordered(budget: LatencyBudget) -> bool {
    budget.p50@ <= budget.p95@ && budget.p95@ <= budget.p99@
}

/// The violation reported for a latency budget that is not ordered.
pub open spec fn invalid_latency_budget() -> BudgetViolation {
    BudgetViolation::InvalidBudget {
        metric: "latency",
        reason: "p50 must be <= p95 and p95 must be <= p99",
    }
}

impl LatencyBudget {
    pub fn new(p50: Duration, p95: Duration, p99: Duration) -> (b: LatencyBudget)
        ensures
            b == (LatencyBudget { p50, p95, p99 }),
    {
        LatencyBudget { p50, p95, p99 }
    }

    /// Accepts an ordered budget; rejects any other as `InvalidBudget`.
    pub fn validate(self) -> (r: Result<(), BudgetViolation>)
        ensures
            r == if latency_budget_ordered(self) {
                Ok(())
            } else {
                Err(invalid_latency_budget())
            },
    {
        if self.p95.lt(&self.p50) || self.p99.lt(&self.p95) {
            return Err(
                BudgetViolation::InvalidBudget {
                    metric: "latency",
                    reason: "p50 must be <= p95 and p95 must be <= p99",
                },
            );
        }
        Ok(())
    }
}

/// The longest acceptable duration of a scenario.
#[derive(Debug, Clone, Copy, PartialEq, Eq)]
pub struct ScenarioBudget {
    pub max: Duration,
}

impl ScenarioBudget {
    pub fn new(max: Duration) -> (b: ScenarioBudget)
        ensures
            b == (ScenarioBudget { max }),
    {
        ScenarioBudget { max }
    }
}

/// Latency budgets per metric and duration budgets per scenario.
#[derive(Debug, Clone, PartialEq, Eq)]
pub struct PerformanceBudgets {
    latency: Vec<Option<LatencyBudget>>,
    scenarios: Vec<Option<ScenarioBudget>>,
}

/// The outcome of checking observations against budgets.
#[derive(Debug, Clone, PartialEq, Eq)]
pub struct BudgetEvaluation {
    pub violations: Vec<BudgetViolation>,
}

impl BudgetEvaluation {
    /// No budget was violated.
    pub fn passed(&self) -> (b: bool)
        ensures
            b == (self.violations@.len() == 0),
    {
        self.violations.len() == 0
    }
}

/// A budget problem.
#[derive(Debug, Clone, Copy, PartialEq, Eq)]
pub enum BudgetViolation {
    MissingLatencyBudget { metric: LatencyMetric },
    MissingScenarioBudget { metric: ScenarioMetric },
    InvalidBudget { metric: &'static str, reason: &'static str },
    LatencyPercentileExceeded {
        metric: LatencyMetric,
        percentile: Percentile,
        observed: Duration,
        budget: Duration,
    },
    ScenarioExceeded { metric: ScenarioMetric, observed: Duration, budget: Duration },
}

/// A tracked latency percentile.
#[derive(Debug, Clone, Copy, PartialEq, Eq)]
pub enum Percentile {
    P50,
    P95,
    P99,
}

/// The violation for one percentile, if its observation exceeds its budget.
pub open spec fn percentile_violation(
    metric: LatencyMetric,
    percentile: Percentile,
    observed: Option<Duration>,
    budget: Duration,
) -> Seq<BudgetViolation> {
    match observed {
        Some(o) => if o@ > budget@ {
            seq![
                BudgetViolation::LatencyPercentileExceeded {
                    metric,
                    percentile,
                    observed: o,
                    budget,
                },
            ]
        } else {
            Seq::empty()
        },
        None => Seq::empty(),
    }
}

/// The violations of a latency summary against its budget: p50, p95, p99 in
/// that order.
pub open spec fn latency_violations(
    metric: LatencyMetric,
    summary: HistogramSummary,
    budget: LatencyBudget,
) -> Seq<BudgetViolation> {
    percentile_violation(metric, Percentile::P50, summary.p50, budget.p50)
        + percentile_violation(metric, Percentile::P95, summary.p95, budget.p95)
        + percentile_violation(metric, Percentile::P99, summary.p99, budget.p99)
}

/// The budget of `q` in `b`.
pub open spec fn percentile_budget(b: LatencyBudget, q: Percentile) -> Duration {
    match q {
        Percentile::P50 => b.p50,
        Percentile::P95 => b.p95,
        Percentile::P99 => b.p99,
    }
}

/// The observed `q` of a summary.
pub open spec fn percentile_observed(s: HistogramSummary, q: Percentile) -> Option<Duration> {
    match q {
        Percentile::P50 => s.p50,
        Percentile::P95 => s.p95,
        Percentile::P99 => s.p99,
    }
}

/// The percentile, out of 100, that `q` names.
pub open spec fn percentile_rank(q: Percentile) -> int {
    match q {
        Percentile::P50 => 50,
        Percentile::P95 => 95,
        Percentile::P99 => 99,
    }
}

/// A latency budget is checked at every percentile: the violations of a
/// summary against a budget report percentile `q` of `metric`, with the
/// observation `o` and `q`'s budget, exactly when `q` was observed as `o`
/// and `o` exceeds that budget; and they report nothing else.
pub proof fn lemma_latency_violations_exact(metric: LatencyMetric, s: HistogramSummary, b: LatencyBudget)
    ensures
        forall|q: Percentile, o: Duration|
            #![trigger latency_violations(metric, s, b).contains(
                BudgetViolation::LatencyPercentileExceeded { metric, percentile: q, observed: o, budget: percentile_budget(b, q) },
            )]
            latency_violations(metric, s, b).contains(
                BudgetViolation::LatencyPercentileExceeded { metric, percentile: q, observed: o, budget: percentile_budget(b, q) },
            ) <==> (percentile_observed(s, q) == Some(o) && o@ > percentile_budget(b, q)@),
        forall|i: int|
            0 <= i < latency_violations(metric, s, b).len() ==> (#[trigger] latency_violations(metric, s, b)[i] matches
                BudgetViolation::LatencyPercentileExceeded { metric: m, percentile: q, observed: o, budget: d }
                && m == metric && d == percentile_budget(b, q) && percentile_observed(s, q) == Some(o) && o@ > d@),
{
    let v50 = percentile_violation(metric, Percentile::P50, s.p50, b.p50);
    let v95 = percentile_violation(metric, Percentile::P95, s.p95, b.p95);
    let v99 = percentile_violation(metric, Percentile::P99, s.p99, b.p99);
    let vs = latency_violations(metric, s, b);
    assert(vs == v50 + v95 + v99);
    assert forall|i: int| 0 <= i < vs.len() implies (#[trigger] vs[i] matches
        BudgetViolation::LatencyPercentileExceeded { metric: m, percentile: q, observed: o, budget: d }
        && m == metric && d == percentile_budget(b, q) && percentile_observed(s, q) == Some(o) && o@ > d@) by {
        if i < v50.len() {
            assert(vs[i] == v50[i]);
        } else if i < v50.len() + v95.len() {
            assert(vs[i] == v95[i - v50.len()]);
        } else {
            assert(vs[i] == v99[i - v50.len() - v95.len()]);
        }
    }
    assert forall|q: Percentile, o: Duration|
        vs.contains(
            BudgetViolation::LatencyPercentileExceeded { metric, percentile: q, observed: o, budget: percentile_budget(b, q) },
        ) <==> (percentile_observed(s, q) == Some(o) && o@ > percentile_budget(b, q)@) by {
        let x = BudgetViolation::LatencyPercentileExceeded { metric, percentile: q, observed: o, budget: percentile_budget(b, q) };
        if percentile_observed(s, q) == Some(o) && o@ > percentile_budget(b, q)@ {
            match q {
                Percentile::P50 => {
                    assert(vs[0] == x);
                },
                Percentile::P95 => {
                    assert(vs[v50.len() as int] == x);
                },
                Percentile::P99 => {
                    assert(vs[(v50.len() + v95.len()) as int] == x);
                },
            }
        }
        if vs.contains(x) {
            let i = choose|i: int| 0 <= i < vs.len() && vs[i] == x;
            assert(vs[i] matches BudgetViolation::LatencyPercentileExceeded { metric: m, percentile: q2, observed: o2, budget: d }
                && percentile_observed(s, q2) == Some(o2) && o2@ > d@);
        }
    }
}

/// Every histogram of `telemetry` can report its summary.
pub open spec fn telemetry_summarizable(telemetry: &Telemetry) -> bool {
    &&& telemetry.wf()
    &&& forall|m: LatencyMetric| #[trigger] telemetry.latency_view(m).count * 100 <= u64::MAX
}

/// The durations of the default budgets, in milliseconds:
/// `(p50, p95, p99)` per latency metric in canonical order.
pub open spec fn default_latency_millis() -> Seq<(int, int, int)> {
    seq![(4, 8, 16), (2, 4, 8), (8, 16, 33), (8, 16, 33), (12, 25, 50), (16, 50, 100),
        (25, 75, 150), (25, 75, 150), (8, 16, 33), (8, 16, 25)]
}

/// The default scenario budgets in milliseconds, in canonical order.
pub open spec fn default_scenario_millis() -> Seq<int> {
    seq![800, 180, 25, 250, 50, 500]
}

impl PerformanceBudgets {
    /// The latency budget of a metric.
    pub closed spec fn latency_budget(&self, metric: LatencyMetric) -> Option<LatencyBudget> {
        self.latency@[latency_metric_index(metric)]
    }

    /// The duration budget of a scenario.
    pub closed spec fn scenario_budget(&self, metric: ScenarioMetric) -> Option<ScenarioBudget> {
        self.scenarios@[scenario_metric_index(metric)]
    }

    /// The invariant: one slot per metric and per scenario.
    pub closed spec fn wf(&self) -> bool {
        self.latency@.len() == 10 && self.scenarios@.len() == SCENARIO_METRIC_COUNT
    }

    /// The first problem among the latency budgets of the metrics from
    /// position `from` on: a missing budget or one that is not ordered.
    pub open spec fn latency_problem_from(&self, from: int) -> Option<BudgetViolation>
        decreases 10 - from,
    {
        if from < 0 || from >= 10 {
            None
        } else {
            let metric = all_latency_metrics()[from];
            match self.latency_budget(metric) {
                None => Some(BudgetViolation::MissingLatencyBudget { metric }),
                Some(b) => if !latency_budget_ordered(b) {
                    Some(invalid_latency_budget())
                } else {
                    self.latency_problem_from(from + 1)
                },
            }
        }
    }

    /// The first scenario, from position `from` on, without a budget.
    pub open spec fn scenario_problem_from(&self, from: int) -> Option<BudgetViolation>
        decreases 6 - from,
    {
        if from < 0 || from >= 6 {
            None
        } else {
            let metric = all_scenario_metrics()[from];
            match self.scenario_budget(metric) {
                None => Some(BudgetViolation::MissingScenarioBudget { metric }),
                Some(_) => self.scenario_problem_from(from + 1),
            }
        }
    }

    /// The violations of one metric: none when it has no observations, a
    /// missing budget, or its exceeded percentiles.
    pub open spec fn metric_violations(&self, telemetry: &Telemetry, metric: LatencyMetric) -> Seq<
        BudgetViolation,
    > {
        let summary = summary_of(telemetry.latency_view(metric));
        if summary.count == 0 {
            Seq::empty()
        } else {
            match self.latency_budget(metric) {
                Some(b) => latency_violations(metric, summary, b),
                None => seq![BudgetViolation::MissingLatencyBudget { metric }],
            }
        }
    }

    /// A metric with observations and a budget is reported at percentile
    /// `q`, with the observation `o`, exactly when its `q`-th percentile is
    /// `o` and `o` exceeds the budget of `q`.
    pub proof fn lemma_metric_violations_exact(&self, telemetry: &Telemetry, metric: LatencyMetric)
        requires
            telemetry.wf(),
            self.latency_budget(metric) is Some,
            telemetry.latency_view(metric).count > 0,
        ensures
            forall|q: Percentile, o: Duration|
                #![trigger self.metric_violations(telemetry, metric).contains(
                    BudgetViolation::LatencyPercentileExceeded {
                        metric,
                        percentile: q,
                        observed: o,
                        budget: percentile_budget(self.latency_budget(metric)->Some_0, q),
                    },
                )]
                self.metric_violations(telemetry, metric).contains(
                    BudgetViolation::LatencyPercentileExceeded {
                        metric,
                        percentile: q,
                        observed: o,
                        budget: percentile_budget(self.latency_budget(metric)->Some_0, q),
                    },
                ) <==> (percentile_of(telemetry.latency_view(metric), percentile_rank(q)) == Some(o) && o@
                    > percentile_budget(self.latency_budget(metric)->Some_0, q)@),
    {
        telemetry.lemma_wf(metric);
        let b = self.latency_budget(metric)->Some_0;
        let h = telemetry.latency_view(metric);
        let sm = summary_of(h);
        assert(sm.count != 0);
        lemma_latency_violations_exact(metric, sm, b);
        assert(self.metric_violations(telemetry, metric) == latency_violations(metric, sm, b));
        assert forall|q: Percentile| #[trigger] percentile_observed(sm, q) == percentile_of(h, percentile_rank(q)) by {
            match q {
                Percentile::P50 => {},
                Percentile::P95 => {},
                Percentile::P99 => {},
            }
        }
    }

    /// The violations of the first `k` metrics, in canonical order.
    pub open spec fn telemetry_violations(&self, telemetry: &Telemetry, k: int) -> Seq<
        BudgetViolation,
    >
        decreases k,
    {
        if k <= 0 {
            Seq::empty()
        } else {
            self.telemetry_violations(telemetry, k - 1) + self.metric_violations(
                telemetry,
                all_latency_metrics()[k - 1],
            )
        }
    }

    /// The violations of the scenario observations, in the order given.
    pub open spec fn scenario_violations(&self, observations: Seq<(ScenarioMetric, Duration)>) -> Seq<
        BudgetViolation,
    >
        decreases observations.len(),
    {
        if observations.len() == 0 {
            Seq::empty()
        } else {
            let (metric, observed) = observations.last();
            self.scenario_violations(observations.drop_last()) + match self.scenario_budget(metric) {
                Some(b) => if observed@ > b.max@ {
                    seq![BudgetViolation::ScenarioExceeded { metric, observed, budget: b.max }]
                } else {
                    Seq::empty()
                },
                None => seq![BudgetViolation::MissingScenarioBudget { metric }],
            }
        }
    }

    /// The budget of `metric`.
    pub fn latency(&self, metric: LatencyMetric) -> (b: Option<LatencyBudget>)
        requires
            self.wf(),
        ensures
            b == self.latency_budget(metric),
    {
        self.latency[metric.index()]
    }

    /// The budget of scenario `metric`.
    pub fn scenario(&self, metric: ScenarioMetric) -> (b: Option<ScenarioBudget>)
        requires
            self.wf(),
        ensures
            b == self.scenario_budget(metric),
    {
        self.scenarios[metric.index()]
    }

    /// Sets the budget of `metric` when it is ordered; otherwise reports it
    /// as invalid and changes nothing.
    pub fn set_latency(&mut self, metric: LatencyMetric, budget: LatencyBudget) -> (r: Result<
        (),
        BudgetViolation,
    >)
        requires
            old(self).wf(),
        ensures
            final(self).wf(),
            r == if latency_budget_ordered(budget) {
                Ok(())
            } else {
                Err(invalid_latency_budget())
            },
            forall|m: LatencyMetric|
                #[trigger] final(self).latency_budget(m) == if m == metric && r is Ok {
                    Some(budget)
                } else {
                    old(self).latency_budget(m)
                },
            forall|m: ScenarioMetric|
                #[trigger] final(self).scenario_budget(m) == old(self).scenario_budget(m),
    {
        match budget.validate() {
            Err(e) => Err(e),
            Ok(()) => {
                let i = metric.index();
                self.latency.set(i, Some(budget));
                proof {
                    assert forall|m: LatencyMetric|
                        #[trigger] self.latency_budget(m) == if m == metric {
                            Some(budget)
                        } else {
                            old(self).latency_budget(m)
                        } by {
                        if m != metric {
                            assert(latency_metric_index(m) != latency_metric_index(metric));
                        }
                    }
                }
                Ok(())
            },
        }
    }

    /// Sets the budget of scenario `metric`.
    pub fn set_scenario(&mut self, metric: ScenarioMetric, budget: ScenarioBudget)
        requires
            old(self).wf(),
        ensures
            final(self).wf(),
            forall|m: ScenarioMetric|
                #[trigger] final(self).scenario_budget(m) == if m == metric {
                    Some(budget)
                } else {
                    old(self).scenario_budget(m)
                },
            forall|m: LatencyMetric|
                #[trigger] final(self).latency_budget(m) == old(self).latency_budget(m),
    {
        let i = metric.index();
        self.scenarios.set(i, Some(budget));
        proof {
            assert forall|m: ScenarioMetric|
                #[trigger] self.scenario_budget(m) == if m == metric {
                    Some(budget)
                } else {
                    old(self).scenario_budget(m)
                } by {
                if m != metric {
                    assert(scenario_metric_index(m) != scenario_metric_index(metric));
                }
            }
        }
    }

    /// What validation reports: the first problem, metrics before
    /// scenarios, each in canonical order, or `Ok`.
    pub open spec fn validation(&self) -> Result<(), BudgetViolation> {
        match self.latency_problem_from(0) {
            Some(v) => Err(v),
            None => match self.scenario_problem_from(0) {
                Some(v) => Err(v),
                None => Ok(()),
            },
        }
    }

    proof fn lemma_latency_problems(&self, from: int)
        requires
            0 <= from <= 10,
        ensures
            self.latency_problem_from(from) is None <==> forall|i: int|
                from <= i < 10 ==> (#[trigger] self.latency_budget(all_latency_metrics()[i]) matches Some(b)
                    && latency_budget_ordered(b)),
        decreases 10 - from,
    {
        if from < 10 {
            self.lemma_latency_problems(from + 1);
        }
    }

    proof fn lemma_scenario_problems(&self, from: int)
        requires
            0 <= from <= 6,
        ensures
            self.scenario_problem_from(from) is None <==> forall|i: int|
                from <= i < 6 ==> (#[trigger] self.scenario_budget(all_scenario_metrics()[i])) is Some,
        decreases 6 - from,
    {
        if from < 6 {
            self.lemma_scenario_problems(from + 1);
        }
    }

    /// Budgets pass validation exactly when every latency metric has a
    /// budget with p50 <= p95 <= p99 and every scenario has a budget.
    pub proof fn lemma_validation_ok(&self)
        ensures
            self.validation() is Ok <==> (forall|m: LatencyMetric|
                (#[trigger] self.latency_budget(m) matches Some(b) && latency_budget_ordered(b)))
                && (forall|m: ScenarioMetric| (#[trigger] self.scenario_budget(m)) is Some),
    {
        self.lemma_latency_problems(0);
        self.lemma_scenario_problems(0);
        assert forall|m: LatencyMetric| #[trigger] all_latency_metrics()[latency_metric_index(m)] == m by {
            match m {
                _ => {},
            }
        }
        assert forall|m: ScenarioMetric| #[trigger] all_scenario_metrics()[scenario_metric_index(m)] == m by {
            match m {
                _ => {},
            }
        }
        if (forall|m: LatencyMetric| (#[trigger] self.latency_budget(m) matches Some(b) && latency_budget_ordered(b))) {
            assert forall|i: int| 0 <= i < 10 implies (#[trigger] self.latency_budget(all_latency_metrics()[i]) matches Some(b)
                && latency_budget_ordered(b)) by {
                let m = all_latency_metrics()[i];
                assert(self.latency_budget(m) matches Some(b) && latency_budget_ordered(b));
            }
        }
        if (forall|m: ScenarioMetric| (#[trigger] self.scenario_budget(m)) is Some) {
            assert forall|i: int| 0 <= i < 6 implies (#[trigger] self.scenario_budget(all_scenario_metrics()[i])) is Some by {
                let m = all_scenario_metrics()[i];
                assert(self.scenario_budget(m) is Some);
            }
        }
        if self.validation() is Ok {
            assert forall|m: LatencyMetric| (#[trigger] self.latency_budget(m) matches Some(b) && latency_budget_ordered(b)) by {
                let i = latency_metric_index(m);
                assert(0 <= i < 10);
                assert(self.latency_budget(all_latency_metrics()[i]) matches Some(b) && latency_budget_ordered(b));
            }
            assert forall|m: ScenarioMetric| (#[trigger] self.scenario_budget(m)) is Some by {
                let i = scenario_metric_index(m);
                assert(0 <= i < 6);
                assert(self.scenario_budget(all_scenario_metrics()[i]) is Some);
            }
        }
    }

    /// Checks that every metric has an ordered latency budget and every
    /// scenario a budget; reports the first problem, metrics before
    /// scenarios, each in canonical order.
    pub fn validate(&self) -> (r: Result<(), BudgetViolation>)
        requires
            self.wf(),
        ensures
            r == self.validation(),
    {
        let mut i: usize = 0;
        while i < 10
            invariant
                self.wf(),
                i <= 10,
                self.latency_problem_from(0) == self.latency_problem_from(i as int),
            decreases 10 - i,
        {
            let metric = latency_metric_at(i);
            match self.latency[i] {
                None => return Err(BudgetViolation::MissingLatencyBudget { metric }),
                Some(b) => {
                    if let Err(e) = b.validate() {
                        return Err(e);
                    }
                },
            }
            i = i + 1;
        }
        let mut j: usize = 0;
        while j < SCENARIO_METRIC_COUNT
            invariant
                self.wf(),
                j <= SCENARIO_METRIC_COUNT,
                self.latency_problem_from(0) is None,
                self.scenario_problem_from(0) == self.scenario_problem_from(j as int),
            decreases SCENARIO_METRIC_COUNT - j,
        {
            let metric = scenario_at(j);
            if self.scenarios[j].is_none() {
                return Err(BudgetViolation::MissingScenarioBudget { metric });
            }
            j = j + 1;
        }
        Ok(())
    }

    /// The latency violations of every metric with observations, in
    /// canonical metric order.
    pub fn evaluate_telemetry(&self, telemetry: &Telemetry) -> (e: BudgetEvaluation)
        requires
            self.wf(),
            telemetry_summarizable(telemetry),
        ensures
            e.violations@ == self.telemetry_violations(telemetry, 10),
    {
        let mut violations: Vec<BudgetViolation> = Vec::new();
        let mut i: usize = 0;
        while i < 10
            invariant
                self.wf(),
                telemetry_summarizable(telemetry),
                i <= 10,
                violations@ == self.telemetry_violations(telemetry, i as int),
            decreases 10 - i,
        {
            let metric = latency_metric_at(i);
            let summary = telemetry.latency(metric);
            if summary.count != 0 {
                match self.latency(metric) {
                    Some(budget) => push_latency_violations(&mut violations, metric, summary, budget),
                    None => violations.push(BudgetViolation::MissingLatencyBudget { metric }),
                }
            }
            proof {
                assert(violations@ =~= self.telemetry_violations(telemetry, i as int + 1));
            }
            i = i + 1;
        }
        BudgetEvaluation { violations }
    }

    /// The scenario observations that exceed their budget or have none, in
    /// the order given: one observation per scenario, in canonical order,
    /// as a map keyed by scenario holds them.
    pub fn evaluate_scenarios(&self, observations: &[(ScenarioMetric, Duration)]) -> (e:
        BudgetEvaluation)
        requires
            self.wf(),
            forall|i: int, j: int|
                0 <= i < j < observations@.len() ==> scenario_metric_index((#[trigger] observations@[i]).0)
                    < scenario_metric_index((#[trigger] observations@[j]).0),
        ensures
            e.violations@ == self.scenario_violations(observations@),
    {
        let mut violations: Vec<BudgetViolation> = Vec::new();
        let n = observations.len();
        let mut i: usize = 0;
        while i < n
            invariant
                self.wf(),
                n == observations@.len(),
                i <= n,
                violations@ == self.scenario_violations(observations@.take(i as int)),
            decreases n - i,
        {
            let (metric, observed) = observations[i];
            match self.scenario(metric) {
                Some(budget) => {
                    if budget.max.lt(&observed) {
                        violations.push(
                            BudgetViolation::ScenarioExceeded { metric, observed, budget: budget.max },
                        );
                    }
                },
                None => violations.push(BudgetViolation::MissingScenarioBudget { metric }),
            }
            proof {
                assert(observations@.take(i as int + 1).drop_last() =~= observations@.take(i as int));
                assert(violations@ =~= self.scenario_violations(observations@.take(i as int + 1)));
            }
            i = i + 1;
        }
        proof {
            assert(observations@.take(n as int) =~= observations@);
        }
        BudgetEvaluation { violations }
    }
}

impl Default for PerformanceBudgets {
    /// The shipped budgets: every metric and every scenario has one.
    fn default() -> (b: PerformanceBudgets)
        ensures
            b.wf(),
            forall|m: LatencyMetric|
                #[trigger] b.latency_budget(m) matches Some(lb) && {
                    let t = default_latency_millis()[latency_metric_index(m)];
                    &&& lb.p50@ == t.0 * 1_000_000
                    &&& lb.p95@ == t.1 * 1_000_000
                    &&& lb.p99@ == t.2 * 1_000_000
                },
            forall|m: ScenarioMetric|
                #[trigger] b.scenario_budget(m) matches Some(sb) && sb.max@
                    == default_scenario_millis()[scenario_metric_index(m)] * 1_000_000,
    {
        let mut latency: Vec<Option<LatencyBudget>> = Vec::new();
        latency.push(Some(LatencyBudget::new(ms(4), ms(8), ms(16))));
        latency.push(Some(LatencyBudget::new(ms(2), ms(4), ms(8))));
        latency.push(Some(LatencyBudget::new(ms(8), ms(16), ms(33))));
        latency.push(Some(LatencyBudget::new(ms(8), ms(16), ms(33))));
        latency.push(Some(LatencyBudget::new(ms(12), ms(25), ms(50))));
        latency.push(Some(LatencyBudget::new(ms(16), ms(50), ms(100))));
        latency.push(Some(LatencyBudget::new(ms(25), ms(75), ms(150))));
        latency.push(Some(LatencyBudget::new(ms(25), ms(75), ms(150))));
        latency.push(Some(LatencyBudget::new(ms(8), ms(16), ms(33))));
        latency.push(Some(LatencyBudget::new(ms(8), ms(16), ms(25))));
        let mut scenarios: Vec<Option<ScenarioBudget>> = Vec::new();
        scenarios.push(Some(ScenarioBudget::new(ms(800))));
        scenarios.push(Some(ScenarioBudget::new(ms(180))));
        scenarios.push(Some(ScenarioBudget::new(ms(25))));
        scenarios.push(Some(ScenarioBudget::new(ms(250))));
        scenarios.push(Some(ScenarioBudget::new(ms(50))));
        scenarios.push(Some(ScenarioBudget::new(ms(500))));
        let b = PerformanceBudgets { latency, scenarios };
        proof {
            assert forall|m: LatencyMetric|
                #[trigger] b.latency_budget(m) matches Some(lb) && {
                    let t = default_latency_millis()[latency_metric_index(m)];
                    &&& lb.p50@ == t.0 * 1_000_000
                    &&& lb.p95@ == t.1 * 1_000_000
                    &&& lb.p99@ == t.2 * 1_000_000
                } by {
                let k = latency_metric_index(m);
                assert(0 <= k < 10);
            }
            assert forall|m: ScenarioMetric|
                #[trigger] b.scenario_budget(m) matches Some(sb) && sb.max@
                    == default_scenario_millis()[scenario_metric_index(m)] * 1_000_000 by {
                let k = scenario_metric_index(m);
                assert(0 <= k < 6);
            }
        }
        b
    }
}

/// Appends the violations of `summary` against `budget`: p50, p95, p99.
fn push_latency_violations(
    violations: &mut Vec<BudgetViolation>,
    metric: LatencyMetric,
    summary: HistogramSummary,
    budget: LatencyBudget,
)
    ensures
        final(violations)@ == old(violations)@ + latency_violations(metric, summary, budget),
{
    let ghost start = violations@;
    if let Some(observed) = summary.p50 {
        if budget.p50.lt(&observed) {
            violations.push(
                BudgetViolation::LatencyPercentileExceeded {
                    metric,
                    percentile: Percentile::P50,
                    observed,
                    budget: budget.p50,
                },
            );
        }
    }
    let ghost after50 = violations@;
    assert(after50 =~= start + percentile_violation(metric, Percentile::P50, summary.p50, budget.p50));
    if let Some(observed) = summary.p95 {
        if budget.p95.lt(&observed) {
            violations.push(
                BudgetViolation::LatencyPercentileExceeded {
                    metric,
                    percentile: Percentile::P95,
                    observed,
                    budget: budget.p95,
                },
            );
        }
    }
    let ghost after95 = violations@;
    assert(after95 =~= after50 + percentile_violation(metric, Percentile::P95, summary.p95, budget.p95));
    if let Some(observed) = summary.p99 {
        if budget.p99.lt(&observed) {
            violations.push(
                BudgetViolation::LatencyPercentileExceeded {
                    metric,
                    percentile: Percentile::P99,
                    observed,
                    budget: budget.p99,
                },
            );
        }
    }
    assert(violations@ =~= after95 + percentile_violation(metric, Percentile::P99, summary.p99, budget.p99));
    assert(violations@ =~= start + latency_violations(metric, summary, budget));
}

/// `value` milliseconds.
fn ms(value: u64) -> (d: Duration)
    ensures
        d@ == value * 1_000_000,
{
    Duration::from_millis(value)
}

} // verus!
