use capital_allocation::domain::{Asset, RiskCalculationResult, SafetyRiskLevel};
use capital_allocation::optimizer::{select, Objective, OptimizeError, PortfolioOptimizer};

fn create_test_result(
    asset_id: &str,
    alternative: &str,
    cost: u64,
    risk_reduction: i128,
    priority: i128,
) -> RiskCalculationResult {
    RiskCalculationResult::new(
        Asset {
            asset_id: asset_id.to_string(),
            alternative_id: alternative.to_string(),
            cost_cents: cost,
            pof_ppm: 50_000,
            cof_total_cents: 50_000_000,
            safety_risk_level: SafetyRiskLevel::Low,
        },
        50_000_000,
        2_500_000,
        risk_reduction,
        risk_reduction * 10_000 / cost as i128,
        500,
        priority,
        7_500,
        120,
        500_000,
    )
}

#[test]
fn test_optimize_under_budget() {
    let optimizer = PortfolioOptimizer::new();
    let results = vec![
        create_test_result("IT_SYSTEM_001", "Pilot_Program", 1_000_000, 5_000_000, 50_000),
        create_test_result("DATACENTER_002", "Full_Implementation", 1_500_000, 8_000_000, 80_000),
        create_test_result("CLOUD_MIGRATION_003", "Partial_Implementation", 2_000_000, 6_000_000, 60_000),
    ];

    let solution = optimizer.optimize(&results, 3_000_000).unwrap();

    assert!(solution.total_cost <= 3_000_000);
    assert!(solution.num_assets_optimized > 0);
}

#[test]
fn test_one_alternative_per_asset() {
    let optimizer = PortfolioOptimizer::new();
    let results = vec![
        create_test_result("IT_SYSTEM_001", "Pilot_Program", 1_000_000, 5_000_000, 50_000),
        create_test_result("IT_SYSTEM_001", "Full_Implementation", 5_000_000, 9_000_000, 90_000),
        create_test_result("DATACENTER_002", "Partial_Implementation", 800_000, 4_000_000, 40_000),
    ];

    let solution = optimizer
        .optimize_combined(&results, 10_000_000, 5_000, 5_000)
        .unwrap();

    let it_system_count = solution
        .selected_alternatives
        .iter()
        .filter(|s| s.starts_with("IT_SYSTEM_001"))
        .count();
    assert!(
        it_system_count <= 1,
        "Should select at most one alternative per investment"
    );
}

#[test]
fn test_maximize_risk_reduction() {
    let optimizer = PortfolioOptimizer::new();
    let results = vec![
        create_test_result("IT_SYSTEM_001", "Cheap", 500_000, 1_000_000, 20_000),
        create_test_result("DATACENTER_002", "Expensive", 500_000, 5_000_000, 50_000),
    ];

    let solution = optimizer.optimize(&results, 500_000).unwrap();

    assert!(solution.total_risk_reduction >= 5_000_000);
}

#[test]
fn three_assets_budget_scenario() {
    let results = vec![
        create_test_result("A", "Only", 1_000_000, 5_000_000, 50_000),
        create_test_result("B", "Only", 1_500_000, 8_000_000, 80_000),
        create_test_result("C", "Only", 2_000_000, 6_000_000, 60_000),
    ];
    let solution = PortfolioOptimizer::new().optimize(&results, 3_000_000).unwrap();
    assert!(solution.total_cost <= 3_000_000);
    assert!(solution.num_assets_optimized >= 1);
    assert!(solution.total_risk_reduction >= 8_000_000);
    // A and B together are the best pair within the budget
    assert_eq!(solution.selected_indices, vec![0, 1]);
    assert_eq!(solution.total_cost, 2_500_000);
    assert_eq!(solution.total_risk_reduction, 13_000_000);
    assert_eq!(solution.total_priority_score, 130_000);
    assert_eq!(solution.selected_alternatives, vec!["A (Only)".to_string(), "B (Only)".to_string()]);
}

#[test]
fn same_asset_unlimited_budget_scenario() {
    let results = vec![
        create_test_result("IT_SYSTEM_001", "Pilot_Program", 1_000_000, 5_000_000, 50_000),
        create_test_result("IT_SYSTEM_001", "Full_Implementation", 5_000_000, 9_000_000, 90_000),
    ];
    let solution = PortfolioOptimizer::new()
        .optimize_combined(&results, i64::MAX, 6_000, 4_000)
        .unwrap();
    assert!(solution.num_assets_optimized <= 1);
    // the larger alternative is worth more on both counts
    assert_eq!(solution.selected_indices, vec![1]);
}

#[test]
fn priority_objective_prefers_priority() {
    let results = vec![
        create_test_result("X", "Risky", 1_000_000, 9_000_000, 10_000),
        create_test_result("X", "Urgent", 1_000_000, 1_000_000, 90_000),
    ];
    let optimizer = PortfolioOptimizer::new();
    let by_risk = optimizer.optimize(&results, 1_000_000).unwrap();
    let by_priority = optimizer.optimize_by_priority(&results, 1_000_000).unwrap();
    assert_eq!(by_risk.selected_indices, vec![0]);
    assert_eq!(by_priority.selected_indices, vec![1]);
}

#[test]
fn budget_zero_selects_only_free() {
    let results = vec![
        create_test_result("A", "Paid", 1_000_000, 5_000_000, 50_000),
        create_test_result("B", "Free", 1, 1, 0),
    ];
    let solution = PortfolioOptimizer::new().optimize(&results, 0).unwrap();
    assert_eq!(solution.num_assets_optimized, 0);
    assert_eq!(solution.total_cost, 0);
}

#[test]
fn empty_input_is_an_error() {
    let results: Vec<RiskCalculationResult> = Vec::new();
    let r = PortfolioOptimizer::new().optimize(&results, 1_000);
    assert_eq!(r.err(), Some(OptimizeError::EmptyInput));
}

#[test]
fn negative_budget_is_infeasible() {
    let results = vec![create_test_result("A", "Only", 1_000_000, 5_000_000, 50_000)];
    let r = select(&results, -1, Objective::RiskReduction);
    assert_eq!(r.err(), Some(OptimizeError::Infeasible));
}

#[test]
fn exclusivity_beats_greedy() {
    // greedy by value would take both of asset A's alternatives
    let results = vec![
        create_test_result("A", "Big", 3_000_000, 10_000_000, 0),
        create_test_result("A", "Small", 1_000_000, 9_000_000, 0),
        create_test_result("B", "Only", 2_000_000, 2_000_000, 0),
    ];
    let solution = PortfolioOptimizer::new().optimize(&results, 4_000_000).unwrap();
    assert_eq!(solution.selected_indices, vec![1, 2]);
    assert_eq!(solution.total_risk_reduction, 11_000_000);
}

#[test]
fn repeated_selection_is_identical() {
    let results = vec![
        create_test_result("A", "One", 1_000_000, 5_000_000, 50_000),
        create_test_result("B", "Two", 1_000_000, 5_000_000, 50_000),
    ];
    let optimizer = PortfolioOptimizer::new();
    let first = optimizer.optimize(&results, 1_000_000).unwrap();
    let second = optimizer.optimize(&results, 1_000_000).unwrap();
    assert_eq!(first.selected_indices, second.selected_indices);
    assert_eq!(first.selected_indices.len(), 1);
}
