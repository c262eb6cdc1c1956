use capital_allocation::domain::{Asset, RiskCalculationResult, SafetyRiskLevel};

fn create_test_asset() -> Asset {
    Asset {
        asset_id: "IT_SYSTEM_001".to_string(),
        alternative_id: "Pilot_Program".to_string(),
        cost_cents: 4_500_000,
        pof_ppm: 50_000,
        cof_total_cents: 50_000_000,
        safety_risk_level: SafetyRiskLevel::Low,
    }
}

#[test]
fn test_is_high_risk_false() {
    let asset = create_test_asset();
    assert!(!asset.is_high_risk());
}

#[test]
fn test_is_high_risk_true() {
    let mut asset = create_test_asset();
    asset.safety_risk_level = SafetyRiskLevel::High;
    assert!(asset.is_high_risk());
}

#[test]
fn test_is_critical() {
    let mut asset = create_test_asset();
    asset.safety_risk_level = SafetyRiskLevel::Critical;
    assert!(asset.is_critical());
}

#[test]
fn test_optimization_result_creation() {
    let asset = create_test_asset();
    let result = RiskCalculationResult::new(
        asset.clone(),
        2_500_000,
        25_000_000,
        22_500_000,
        9_000,
        550,
        7_500,
        8_500,
        240,
        500_000,
    );

    assert_eq!(result.baseline_risk, 2_500_000);
    assert_eq!(result.post_action_risk, 25_000_000);
    assert_eq!(result.risk_reduction, 22_500_000);
    assert_eq!(result.roi, 9_000);
    assert_eq!(result.criticality_score, 550);
    assert_eq!(result.priority_score, 7_500);
    assert_eq!(result.calculation_time_ns, 500_000);
}

#[test]
fn critical_is_also_high_risk() {
    let mut asset = create_test_asset();
    asset.safety_risk_level = SafetyRiskLevel::Critical;
    assert!(asset.is_high_risk());
    asset.safety_risk_level = SafetyRiskLevel::Medium;
    assert!(!asset.is_high_risk());
    assert!(!asset.is_critical());
}

#[test]
fn duplicate_keeps_every_field() {
    let asset = create_test_asset();
    let copy = asset.duplicate();
    assert_eq!(copy.asset_id, asset.asset_id);
    assert_eq!(copy.alternative_id, asset.alternative_id);
    assert_eq!(copy.cost_cents, asset.cost_cents);
    assert_eq!(copy.pof_ppm, asset.pof_ppm);
    assert_eq!(copy.cof_total_cents, asset.cof_total_cents);
    assert_eq!(copy.safety_risk_level, asset.safety_risk_level);
}

#[test]
fn cost_benefit_ratio_in_ten_thousandths() {
    let asset = create_test_asset();
    let result = RiskCalculationResult::new(asset.clone(), 0, 0, 22_500_000, 0, 0, 0, 0, 0, 0);
    // 225,000.00 / 45,000.00 = 5
    assert_eq!(result.cost_benefit_ratio(), 50_000);
    let mut free = asset.clone();
    free.cost_cents = 0;
    let result = RiskCalculationResult::new(free, 0, 0, 22_500_000, 0, 0, 0, 0, 0, 0);
    assert_eq!(result.cost_benefit_ratio(), 0);
}
