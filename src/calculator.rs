//! The metric evaluator: walks the node order once per alternative.
use vstd::prelude::*;
use crate::clock::{clock_now, nanos_since};
use crate::domain::{Asset, RiskCalculationResult};
use crate::formulas::{FormulaRepository, declared_order};
use crate::metrics::{
    MetricNode, NODE_COUNT, attributes_in_range, env_consistent, eval_node, baseline_risk_of,
    post_action_risk_of, risk_reduction_of, roi_of, criticality_score_of, priority_score_of,
    cost_effectiveness_of, payback_period_of, lemma_risk_reduction_is_floored_difference,
};
use crate::fixed::max_int;

verus! {

/// Why an evaluation could not complete.
#[derive(Clone, Copy, Debug, PartialEq, Eq, Structural)]
pub enum EvaluationError {
    /// The node was reached before one of its inputs was evaluated.
    UnresolvedDependency(MetricNode),
    /// An output of the record was never produced by the node order.
    NonNumericOutput(MetricNode),
}

/// Every input of `nodes[i]` occurs before position `i`.
pub open spec fn resolved_at(nodes: Seq<MetricNode>, i: int) -> bool {
    forall|j: int|
        0 <= j < nodes[i].dependencies().len() ==> nodes.take(i).contains(
            #[trigger] nodes[i].dependencies()[j],
        )
}

/// The first node at or after position `i` whose inputs come too late.
pub open spec fn first_unresolved_from(nodes: Seq<MetricNode>, i: int) -> Option<MetricNode>
    decreases nodes.len() - i,
{
    if i < 0 || i >= nodes.len() {
        None
    } else if !resolved_at(nodes, i) {
        Some(nodes[i])
    } else {
        first_unresolved_from(nodes, i + 1)
    }
}

/// Outputs that an evaluated record carries, in the order they are read.
pub open spec fn record_outputs() -> Seq<MetricNode> {
    seq![
        MetricNode::BaselineRisk,
        MetricNode::PostActionRisk,
        MetricNode::RiskReduction,
        MetricNode::Roi,
        MetricNode::CriticalityScore,
        MetricNode::PriorityScore,
        MetricNode::CostEffectiveness,
        MetricNode::PaybackPeriod,
    ]
}

/// The first record output, from position `i` of `record_outputs`, that `nodes` never produces.
pub open spec fn first_missing_output_from(nodes: Seq<MetricNode>, i: int) -> Option<MetricNode>
    decreases record_outputs().len() - i,
{
    if i < 0 || i >= record_outputs().len() {
        None
    } else if !nodes.contains(record_outputs()[i]) {
        Some(record_outputs()[i])
    } else {
        first_missing_output_from(nodes, i + 1)
    }
}

/// The error that evaluating in the order `nodes` meets, if any.
pub open spec fn order_error(nodes: Seq<MetricNode>) -> Option<EvaluationError> {
    match first_unresolved_from(nodes, 0) {
        Some(k) => Some(EvaluationError::UnresolvedDependency(k)),
        None => match first_missing_output_from(nodes, 0) {
            Some(k) => Some(EvaluationError::NonNumericOutput(k)),
            None => None,
        },
    }
}

/// `r` carries the closed-form metrics of `a`.
pub open spec fn evaluated_from(r: RiskCalculationResult, a: Asset) -> bool {
    &&& r.asset == a
    &&& r.baseline_risk == baseline_risk_of(a)
    &&& r.post_action_risk == post_action_risk_of(a)
    &&& r.risk_reduction == risk_reduction_of(a)
    &&& r.roi == roi_of(a)
    &&& r.criticality_score == criticality_score_of(a)
    &&& r.priority_score == priority_score_of(a)
    &&& r.cost_effectiveness == cost_effectiveness_of(a)
    &&& r.payback_period == payback_period_of(a)
}

/// Evaluates alternatives against a node order loaded once from a repository.
pub struct RiskCalculationService {
    pub formulas: Vec<MetricNode>,
}

impl RiskCalculationService {
    pub fn new<R: FormulaRepository>(formula_repository: R) -> (r: Self)
        ensures
            r.formulas@ == formula_repository.nodes(),
    {
        RiskCalculationService { formulas: formula_repository.load_all() }
    }

    /// A service over the given node order.
    pub fn with_formulas(formulas: Vec<MetricNode>) -> (r: Self)
        ensures
            r.formulas@ == formulas@,
    {
        RiskCalculationService { formulas }
    }

    /// Evaluates every node for one alternative and records the elapsed time.
    pub fn calculate(&self, asset: &Asset) -> (r: Result<RiskCalculationResult, EvaluationError>)
        requires
            attributes_in_range(*asset),
        ensures
            match r {
                Ok(res) => {
                    &&& order_error(self.formulas@) is None
                    &&& evaluated_from(res, *asset)
                    &&& 0 <= res.risk_reduction <= 2_000_000_000_000_000_000
                    &&& -1_000_000_000_000_000 <= res.priority_score <= 1_000_000_000_000_000
                },
                Err(e) => order_error(self.formulas@) == Some(e),
            },
    {
        let start = clock_now();
        let nodes = &self.formulas;
        let mut env: Vec<Option<i128>> = vec![None; NODE_COUNT];
        assert(forall|k: MetricNode| (#[trigger] env@[k.spec_index()]) is None);
        let mut i: usize = 0;
        while i < nodes.len()
            invariant
                i <= nodes@.len(),
                nodes@ == self.formulas@,
                attributes_in_range(*asset),
                env_consistent(env@, *asset),
                forall|k: MetricNode| (#[trigger] env@[k.spec_index()]) is Some <==> nodes@.take(i as int).contains(k),
                first_unresolved_from(nodes@, 0) == first_unresolved_from(nodes@, i as int),
            decreases nodes@.len() - i,
        {
            let node = nodes[i];
            match eval_node(node, asset, &env) {
                None => {
                    proof {
                        let deps = node.dependencies();
                        let j = choose|j: int| 0 <= j < deps.len() && !(env@[deps[j].spec_index()] is Some);
                        assert(!nodes@.take(i as int).contains(deps[j]));
                        assert(!resolved_at(nodes@, i as int));
                        assert(first_unresolved_from(nodes@, i as int) == Some(node));
                    }
                    return Err(EvaluationError::UnresolvedDependency(node));
                }
                Some(v) => {
                    proof {
                        assert(resolved_at(nodes@, i as int)) by {
                            assert forall|j: int| 0 <= j < nodes@[i as int].dependencies().len() implies
                                nodes@.take(i as int).contains(#[trigger] nodes@[i as int].dependencies()[j]) by {
                                assert(env@[node.dependencies()[j].spec_index()] is Some);
                            }
                        }
                    }
                    assert(first_unresolved_from(nodes@, i as int) == first_unresolved_from(nodes@, i + 1));
                    let ghost old_env = env@;
                    env.set(node.index(), Some(v));
                    proof {
                        assert(nodes@.take(i + 1) =~= nodes@.take(i as int).push(node));
                        assert forall|k: MetricNode| (#[trigger] env@[k.spec_index()]) is Some <==> nodes@.take(i + 1).contains(k) by {
                            if k == node {
                                assert(nodes@.take(i + 1)[i as int] == k);
                            } else {
                                assert(k.spec_index() != node.spec_index());
                                assert(env@[k.spec_index()] == old_env[k.spec_index()]);
                                if nodes@.take(i + 1).contains(k) {
                                    let t = choose|t: int| 0 <= t < i + 1 && #[trigger] nodes@.take(i + 1)[t] == k;
                                    assert(nodes@.take(i as int)[t] == k);
                                }
                            }
                        }
                        assert forall|k: MetricNode| #[trigger] env@[k.spec_index()] matches Some(w) ==> w == k.value_for(*asset)
                            && k.value_in_range(w as int) by {
                            if k != node {
                                assert(k.spec_index() != node.spec_index());
                                assert(env@[k.spec_index()] == old_env[k.spec_index()]);
                            }
                        }
                    }
                }
            }
            i += 1;
        }
        proof {
            assert(nodes@.take(nodes@.len() as int) =~= nodes@);
            assert(first_unresolved_from(nodes@, nodes@.len() as int) is None);
            reveal_with_fuel(first_missing_output_from, 9);
            assert(env@[MetricNode::BaselineRisk.spec_index()] == env@[0]);
            assert(env@[MetricNode::SafetyMultiplier.spec_index()] == env@[1]);
            assert(env@[MetricNode::CriticalityScore.spec_index()] == env@[2]);
            assert(env@[MetricNode::DegradationFactor.spec_index()] == env@[3]);
            assert(env@[MetricNode::PostActionRisk.spec_index()] == env@[4]);
            assert(env@[MetricNode::RiskReduction.spec_index()] == env@[5]);
            assert(env@[MetricNode::ImplementationComplexity.spec_index()] == env@[6]);
            assert(env@[MetricNode::TimeValueAdjustment.spec_index()] == env@[7]);
            assert(env@[MetricNode::AdjustedCost.spec_index()] == env@[8]);
            assert(env@[MetricNode::Roi.spec_index()] == env@[9]);
            assert(env@[MetricNode::CostEffectiveness.spec_index()] == env@[10]);
            assert(env@[MetricNode::PriorityScore.spec_index()] == env@[11]);
            assert(env@[MetricNode::PaybackPeriod.spec_index()] == env@[12]);
        }
        let baseline_risk = match env[0] {
            Some(v) => v,
            None => { return Err(EvaluationError::NonNumericOutput(MetricNode::BaselineRisk)); }
        };
        let post_action_risk = match env[4] {
            Some(v) => v,
            None => { return Err(EvaluationError::NonNumericOutput(MetricNode::PostActionRisk)); }
        };
        let risk_reduction = match env[5] {
            Some(v) => v,
            None => { return Err(EvaluationError::NonNumericOutput(MetricNode::RiskReduction)); }
        };
        let roi = match env[9] {
            Some(v) => v,
            None => { return Err(EvaluationError::NonNumericOutput(MetricNode::Roi)); }
        };
        let criticality_score = match env[2] {
            Some(v) => v,
            None => { return Err(EvaluationError::NonNumericOutput(MetricNode::CriticalityScore)); }
        };
        let priority_score = match env[11] {
            Some(v) => v,
            None => { return Err(EvaluationError::NonNumericOutput(MetricNode::PriorityScore)); }
        };
        let cost_effectiveness = match env[10] {
            Some(v) => v,
            None => { return Err(EvaluationError::NonNumericOutput(MetricNode::CostEffectiveness)); }
        };
        let payback_period = match env[12] {
            Some(v) => v,
            None => { return Err(EvaluationError::NonNumericOutput(MetricNode::PaybackPeriod)); }
        };
        let elapsed: u64 = nanos_since(&start);
        assert(first_missing_output_from(nodes@, 0) is None);
        assert(order_error(nodes@) is None);
        let copy = asset.duplicate();
        Ok(RiskCalculationResult::new(
            copy,
            baseline_risk,
            post_action_risk,
            risk_reduction,
            roi,
            criticality_score,
            priority_score,
            cost_effectiveness,
            payback_period,
            elapsed,
        ))
    }
}


/// The declared node order evaluates without error.
pub proof fn lemma_declared_order_is_sound()
    ensures
        order_error(declared_order()) is None,
{
    let o = declared_order();
    reveal_with_fuel(first_unresolved_from, 14);
    reveal_with_fuel(first_missing_output_from, 9);
    assert(resolved_at(o, 0));
    assert(resolved_at(o, 1));
    assert(resolved_at(o, 2));
    assert(resolved_at(o, 3));
    assert(o.take(4)[1] == MetricNode::SafetyMultiplier);
    assert(o.take(4)[3] == MetricNode::DegradationFactor);
    assert(resolved_at(o, 4));
    assert(o.take(5)[0] == MetricNode::BaselineRisk);
    assert(o.take(5)[4] == MetricNode::PostActionRisk);
    assert(resolved_at(o, 5));
    assert(resolved_at(o, 6));
    assert(o.take(7)[6] == MetricNode::ImplementationComplexity);
    assert(resolved_at(o, 7));
    assert(o.take(8)[6] == MetricNode::ImplementationComplexity);
    assert(o.take(8)[7] == MetricNode::TimeValueAdjustment);
    assert(resolved_at(o, 8));
    assert(o.take(9)[5] == MetricNode::RiskReduction);
    assert(o.take(9)[8] == MetricNode::AdjustedCost);
    assert(resolved_at(o, 9));
    assert(o.take(10)[9] == MetricNode::Roi);
    assert(o.take(10)[2] == MetricNode::CriticalityScore);
    assert(resolved_at(o, 10));
    assert(o.take(11)[5] == MetricNode::RiskReduction);
    assert(o.take(11)[9] == MetricNode::Roi);
    assert(o.take(11)[2] == MetricNode::CriticalityScore);
    assert(resolved_at(o, 11));
    assert(o.take(12)[8] == MetricNode::AdjustedCost);
    assert(o.take(12)[5] == MetricNode::RiskReduction);
    assert(resolved_at(o, 12));
    assert(o[0] == MetricNode::BaselineRisk);
    assert(o[4] == MetricNode::PostActionRisk);
    assert(o[5] == MetricNode::RiskReduction);
    assert(o[9] == MetricNode::Roi);
    assert(o[2] == MetricNode::CriticalityScore);
    assert(o[11] == MetricNode::PriorityScore);
    assert(o[10] == MetricNode::CostEffectiveness);
    assert(o[12] == MetricNode::PaybackPeriod);
}

/// A record's risk reduction is its baseline risk less its post-action risk,
/// floored at zero.
pub proof fn lemma_risk_reduction_of_record(r: RiskCalculationResult, a: Asset)
    requires
        evaluated_from(r, a),
    ensures
        r.risk_reduction == max_int(r.baseline_risk - r.post_action_risk, 0),
{
    lemma_risk_reduction_is_floored_difference(a);
}

/// Evaluation is a function of the alternative alone: two results evaluated
/// from the same alternative carry identical metrics.
pub proof fn lemma_evaluation_is_deterministic(a: Asset, r1: RiskCalculationResult, r2: RiskCalculationResult)
    requires
        evaluated_from(r1, a),
        evaluated_from(r2, a),
    ensures
        r1.asset == r2.asset,
        r1.baseline_risk == r2.baseline_risk,
        r1.post_action_risk == r2.post_action_risk,
        r1.risk_reduction == r2.risk_reduction,
        r1.roi == r2.roi,
        r1.criticality_score == r2.criticality_score,
        r1.priority_score == r2.priority_score,
        r1.cost_effectiveness == r2.cost_effectiveness,
        r1.payback_period == r2.payback_period,
{
}

} // verus!
