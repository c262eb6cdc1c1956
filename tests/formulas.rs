use capital_allocation::formulas::{FormulaRepository, InMemoryFormulaRepository};
use capital_allocation::metrics::MetricNode;

#[test]
fn test_load_all_formulas() {
    let repo = InMemoryFormulaRepository::new();
    let formulas = repo.load_all();
    assert_eq!(formulas.len(), 13);
}

#[test]
fn test_formula_names() {
    let repo = InMemoryFormulaRepository::new();
    let formulas = repo.load_all();

    let names: Vec<&str> = formulas.iter().map(|f| f.name()).collect();
    assert!(names.contains(&"baseline_risk"));
    assert!(names.contains(&"post_action_risk"));
    assert!(names.contains(&"risk_reduction"));
    assert!(names.contains(&"roi"));
    assert!(names.contains(&"cost_effectiveness"));
    assert!(names.contains(&"safety_multiplier"));
    assert!(names.contains(&"criticality_score"));
    assert!(names.contains(&"priority_score"));
}

#[test]
fn declared_order_positions_match_indices() {
    let formulas = InMemoryFormulaRepository::new().formulas();
    for (i, node) in formulas.iter().enumerate() {
        assert_eq!(node.index(), i);
    }
    assert_eq!(formulas[0], MetricNode::BaselineRisk);
    assert_eq!(formulas[12], MetricNode::PaybackPeriod);
}

#[test]
fn default_and_new_give_the_same_nodes() {
    assert_eq!(InMemoryFormulaRepository::default().load_all(), InMemoryFormulaRepository::new().load_all());
}
