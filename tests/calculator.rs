use capital_allocation::calculator::{EvaluationError, RiskCalculationService};
use capital_allocation::domain::{Asset, SafetyRiskLevel};
use capital_allocation::formulas::InMemoryFormulaRepository;
use capital_allocation::metrics::{eval_node, MetricNode};

fn create_test_asset() -> Asset {
    Asset {
        asset_id: "PUMP_001".to_string(),
        alternative_id: "Refurbish".to_string(),
        cost_cents: 4_500_000,
        pof_ppm: 50_000,
        cof_total_cents: 50_000_000,
        safety_risk_level: SafetyRiskLevel::Low,
    }
}

fn service() -> RiskCalculationService {
    RiskCalculationService::new(InMemoryFormulaRepository::new())
}

#[test]
fn test_calculate_risk_metrics() {
    let service = service();
    let asset = create_test_asset();

    let result = service.calculate(&asset);
    assert!(result.is_ok());

    let result = result.unwrap();
    assert!(result.baseline_risk > 0);
    assert!(result.post_action_risk > 0);
    assert!(result.risk_reduction > 0);
    assert!(result.calculation_time_ns as f64 >= 0.0);
}

#[test]
fn test_risk_reduction_calculation() {
    let service = service();
    let asset = create_test_asset();

    let result = service.calculate(&asset).unwrap();

    // Risk reduction should equal baseline - post action, to the cent
    let expected = result.baseline_risk - result.post_action_risk;
    assert!((result.risk_reduction - expected).abs() < 1);
}

#[test]
fn test_critical_asset_multiplier() {
    let service = service();

    let mut normal_asset = create_test_asset();
    normal_asset.safety_risk_level = SafetyRiskLevel::Low;
    let normal_result = service.calculate(&normal_asset).unwrap();

    let mut critical_asset = create_test_asset();
    critical_asset.safety_risk_level = SafetyRiskLevel::Critical;
    let critical_result = service.calculate(&critical_asset).unwrap();

    assert!(critical_result.post_action_risk > normal_result.post_action_risk);
}

#[test]
fn test_roi_calculation() {
    let service = service();
    let asset = create_test_asset();

    let result = service.calculate(&asset).unwrap();

    // positive, and below 1000.0 (ten-thousandths)
    assert!(result.roi > 0);
    assert!(result.roi < 10_000_000);
}

#[test]
fn test_low_pof_reduces_risk() {
    let service = service();

    let mut high_pof = create_test_asset();
    high_pof.pof_ppm = 250_000;
    let high_result = service.calculate(&high_pof).unwrap();

    let mut low_pof = create_test_asset();
    low_pof.pof_ppm = 10_000;
    let low_result = service.calculate(&low_pof).unwrap();

    assert!(low_result.post_action_risk < high_result.post_action_risk);
    assert!(low_result.risk_reduction > high_result.risk_reduction);
}

#[test]
fn refurbish_pump_metrics_exact() {
    let result = service().calculate(&create_test_asset()).unwrap();
    assert_eq!(result.baseline_risk, 50_000_000);
    assert_eq!(result.post_action_risk, 2_250_000);
    assert_eq!(result.risk_reduction, 47_750_000);
    assert_eq!(result.criticality_score, 150);
    assert_eq!(result.roi, 104_466);
    assert_eq!(result.cost_effectiveness, 4_106);
    assert_eq!(result.priority_score, 5_785);
    assert_eq!(result.payback_period, 11);
}

#[test]
fn refurbish_pump_scenario() {
    let asset = create_test_asset();
    let result = service().calculate(&asset).unwrap();
    assert_eq!(result.baseline_risk, 50_000_000);
    assert!(result.risk_reduction > 0);
    assert!(result.roi > 0);
    let env: Vec<Option<i128>> = vec![None; 13];
    assert_eq!(eval_node(MetricNode::SafetyMultiplier, &asset, &env), Some(100_000_000));
}

#[test]
fn intermediate_nodes_exact() {
    let asset = create_test_asset();
    let mut env: Vec<Option<i128>> = vec![None; 13];
    let order = InMemoryFormulaRepository::new().formulas();
    for node in order.iter() {
        let v = eval_node(*node, &asset, &env);
        env[node.index()] = v;
    }
    assert_eq!(env[3], Some(9_000)); // degradation factor 0.9
    assert_eq!(env[6], Some(45)); // complexity 0.45
    assert_eq!(env[7], Some(9_934)); // one period of discount
    assert_eq!(env[8], Some(4_570_882)); // adjusted cost 45,708.82
}

#[test]
fn node_waits_for_its_inputs() {
    let asset = create_test_asset();
    let env: Vec<Option<i128>> = vec![None; 13];
    assert_eq!(eval_node(MetricNode::PostActionRisk, &asset, &env), None);
}

#[test]
fn critical_scenario_exact() {
    let mut asset = create_test_asset();
    asset.safety_risk_level = SafetyRiskLevel::Critical;
    let result = service().calculate(&asset).unwrap();
    assert_eq!(result.post_action_risk, 3_397_500);
    assert_eq!(result.criticality_score, 225);
    assert_eq!(result.priority_score, 7_705);
}

#[test]
fn high_consequence_scaled_by_root_e() {
    let mut asset = create_test_asset();
    asset.cof_total_cents = 200_000_000;
    asset.safety_risk_level = SafetyRiskLevel::High;
    let result = service().calculate(&asset).unwrap();
    // 2,000,000 * e^0.5 = 3,297,442.54
    assert_eq!(result.baseline_risk, 329_744_254);
    assert_eq!(result.risk_reduction, 318_494_254);
}

#[test]
fn reduction_floors_at_zero_with_sentinels() {
    let mut asset = create_test_asset();
    asset.pof_ppm = 2_000_000;
    asset.safety_risk_level = SafetyRiskLevel::Critical;
    let result = service().calculate(&asset).unwrap();
    assert_eq!(result.post_action_risk, 95_000_000);
    assert!(result.post_action_risk > result.baseline_risk);
    assert_eq!(result.risk_reduction, 0);
    assert_eq!(result.roi, 0);
    assert_eq!(result.payback_period, 9_999);
}

#[test]
fn free_alternative_gets_roi_sentinel() {
    let mut asset = create_test_asset();
    asset.cost_cents = 0;
    let result = service().calculate(&asset).unwrap();
    assert_eq!(result.roi, 9_999_999);
}

#[test]
fn evaluation_is_repeatable() {
    let service = service();
    let asset = create_test_asset();
    let a = service.calculate(&asset).unwrap();
    let b = service.calculate(&asset).unwrap();
    assert_eq!(a.baseline_risk, b.baseline_risk);
    assert_eq!(a.post_action_risk, b.post_action_risk);
    assert_eq!(a.risk_reduction, b.risk_reduction);
    assert_eq!(a.roi, b.roi);
    assert_eq!(a.criticality_score, b.criticality_score);
    assert_eq!(a.priority_score, b.priority_score);
    assert_eq!(a.cost_effectiveness, b.cost_effectiveness);
    assert_eq!(a.payback_period, b.payback_period);
}

#[test]
fn out_of_order_graph_is_unresolved() {
    let service = RiskCalculationService::with_formulas(vec![MetricNode::PostActionRisk]);
    let r = service.calculate(&create_test_asset());
    assert_eq!(r.err(), Some(EvaluationError::UnresolvedDependency(MetricNode::PostActionRisk)));
}

#[test]
fn missing_output_is_reported() {
    let service = RiskCalculationService::with_formulas(vec![MetricNode::BaselineRisk]);
    let r = service.calculate(&create_test_asset());
    assert_eq!(r.err(), Some(EvaluationError::NonNumericOutput(MetricNode::PostActionRisk)));
}

#[test]
fn degradation_step_can_outweigh_probability() {
    // Rounding the degradation factor to 4 decimals makes a slightly lower
    // probability land on a higher factor: 0.6000 against 0.5999.
    let service = service();
    let mut lower = create_test_asset();
    lower.cof_total_cents = 100_000_000;
    lower.pof_ppm = 200_024;
    let mut higher = lower.clone();
    higher.pof_ppm = 200_026;
    let lower = service.calculate(&lower).unwrap();
    let higher = service.calculate(&higher).unwrap();
    assert_eq!(lower.post_action_risk, 12_001_440);
    assert_eq!(higher.post_action_risk, 11_999_560);
}
