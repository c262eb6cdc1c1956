use capital_allocation::app_state::AppState;
use capital_allocation::domain::{Asset, RiskCalculationResult, SafetyRiskLevel};
use std::time::Duration;

fn result(asset_id: &str, alternative: &str) -> RiskCalculationResult {
    RiskCalculationResult::new(
        Asset {
            asset_id: asset_id.to_string(),
            alternative_id: alternative.to_string(),
            cost_cents: 100,
            pof_ppm: 50_000,
            cof_total_cents: 50_000_000,
            safety_risk_level: SafetyRiskLevel::Low,
        },
        0, 0, 0, 0, 0, 0, 0, 0, 0,
    )
}

fn four() -> Vec<RiskCalculationResult> {
    vec![result("A", "x"), result("B", "y"), result("C", "z"), result("D", "w")]
}

#[test]
fn chosen_alternatives_are_listed_first() {
    let state = AppState::with_optimization(
        four(),
        Duration::from_millis(3),
        vec!["C (z)".to_string()],
        vec![],
        vec!["B (y)".to_string()],
        1_000,
    );
    assert_eq!(state.display_order, vec![1, 2, 0, 3]);
    assert!(state.is_selected_by_combined(&state.results[1]));
    assert!(!state.is_selected_by_risk(&state.results[1]));
    assert!(state.is_selected_by_any(&state.results[2]));
    assert!(!state.is_selected_by_any(&state.results[3]));
    assert_eq!(state.optimization_budget, Some(1_000));
}

#[test]
fn cursor_stays_within_rows() {
    let mut state = AppState::new(four(), Duration::from_millis(1));
    assert_eq!(state.display_order, vec![0, 1, 2, 3]);
    state.select_previous();
    assert_eq!(state.selected, 0);
    state.select_next();
    state.select_next();
    assert_eq!(state.selected, 2);
    state.page_down(10);
    assert_eq!(state.selected, 3);
    state.select_next();
    assert_eq!(state.selected, 3);
    state.page_up(2);
    assert_eq!(state.selected, 1);
    state.page_up(5);
    assert_eq!(state.selected, 0);
    assert_eq!(state.get_selected().unwrap().asset.asset_id, "A");
    state.toggle_expand();
    assert!(state.expanded);
}

#[test]
fn empty_state_has_no_selection() {
    let mut state = AppState::new(Vec::new(), Duration::from_millis(0));
    state.select_next();
    state.page_down(3);
    assert_eq!(state.selected, 0);
    assert!(state.get_selected().is_none());
}
