use gfm_store::{
    BudgetViolation, Duration, LatencyBudget, LatencyMetric, Percentile, PerformanceBudgets,
    ScenarioMetric, Telemetry,
};

fn ms(value: u64) -> Duration {
    Duration::from_millis(value)
}

#[test]
fn default_budgets_cover_all_required_metrics() {
    let budgets = PerformanceBudgets::default();

    budgets.validate().unwrap();
    for metric in LatencyMetric::ALL {
        let budget = budgets.latency(metric).unwrap();
        assert!(budget.p50 <= budget.p95);
        assert!(budget.p95 <= budget.p99);
    }
    for metric in ScenarioMetric::ALL {
        assert!(budgets.scenario(metric).unwrap().max > Duration::zero());
    }
}

#[test]
fn evaluates_latency_budget_violations() {
    let mut budgets = PerformanceBudgets::default();
    budgets
        .set_latency(
            LatencyMetric::SearchKeystroke,
            LatencyBudget::new(ms(1), ms(2), ms(4)),
        )
        .unwrap();
    let mut telemetry = Telemetry::default();
    telemetry.observe_latency(LatencyMetric::SearchKeystroke, ms(8));

    let evaluation = budgets.evaluate_telemetry(&telemetry);

    assert!(!evaluation.passed());
    assert!(evaluation.violations.iter().any(|violation| {
        matches!(
            violation,
            BudgetViolation::LatencyPercentileExceeded {
                metric: LatencyMetric::SearchKeystroke,
                percentile: Percentile::P99,
                ..
            }
        )
    }));
}

#[test]
fn evaluates_scenario_budget_violations() {
    let budgets = PerformanceBudgets::default();
    let observations = vec![
        (ScenarioMetric::ColdStart, Duration::from_secs(2)),
        (ScenarioMetric::FirstResult, ms(5)),
    ];

    let evaluation = budgets.evaluate_scenarios(&observations);

    assert!(!evaluation.passed());
    assert_eq!(evaluation.violations.len(), 1);
    assert!(matches!(
        evaluation.violations[0],
        BudgetViolation::ScenarioExceeded {
            metric: ScenarioMetric::ColdStart,
            ..
        }
    ));
}

#[test]
fn rejects_invalid_latency_budget_ordering() {
    let mut budgets = PerformanceBudgets::default();

    let err = budgets
        .set_latency(
            LatencyMetric::Navigation,
            LatencyBudget::new(ms(10), ms(5), ms(20)),
        )
        .unwrap_err();

    assert!(matches!(err, BudgetViolation::InvalidBudget { .. }));
}
