//! Sources of the metric graph's node order.
use vstd::prelude::*;
use crate::metrics::MetricNode;
use crate::calculator::{order_error, lemma_declared_order_is_sound};

verus! {

/// The thirteen nodes in the order in which they are declared.
pub open spec fn declared_order() -> Seq<MetricNode> {
    seq![
        MetricNode::BaselineRisk,
        MetricNode::SafetyMultiplier,
        MetricNode::CriticalityScore,
        MetricNode::DegradationFactor,
        MetricNode::PostActionRisk,
        MetricNode::RiskReduction,
        MetricNode::ImplementationComplexity,
        MetricNode::TimeValueAdjustment,
        MetricNode::AdjustedCost,
        MetricNode::Roi,
        MetricNode::CostEffectiveness,
        MetricNode::PriorityScore,
        MetricNode::PaybackPeriod,
    ]
}

/// A source of metric nodes, in the order in which they are to be evaluated.
pub trait FormulaRepository {
    /// The nodes this source supplies, in order.
    spec fn nodes(&self) -> Seq<MetricNode>;

    fn load_all(&self) -> (r: Vec<MetricNode>)
        ensures
            r@ == self.nodes();
}

/// The built-in node graph.
pub struct InMemoryFormulaRepository;

impl InMemoryFormulaRepository {
    /// The built-in graph, whose declared order evaluates without error.
    pub fn new() -> (r: Self)
        ensures
            r.nodes() == declared_order(),
            order_error(r.nodes()) is None,
    {
        proof { lemma_declared_order_is_sound(); }
        InMemoryFormulaRepository
    }

    /// All thirteen nodes in their declared topological order.
    pub fn formulas(&self) -> (r: Vec<MetricNode>)
        ensures
            r@ == declared_order(),
    {
        let r: Vec<MetricNode> = vec![
            MetricNode::BaselineRisk,
            MetricNode::SafetyMultiplier,
            MetricNode::CriticalityScore,
            MetricNode::DegradationFactor,
            MetricNode::PostActionRisk,
            MetricNode::RiskReduction,
            MetricNode::ImplementationComplexity,
            MetricNode::TimeValueAdjustment,
            MetricNode::AdjustedCost,
            MetricNode::Roi,
            MetricNode::CostEffectiveness,
            MetricNode::PriorityScore,
            MetricNode::PaybackPeriod,
        ];
        assert(r@ =~= declared_order());
        r
    }
}

impl FormulaRepository for InMemoryFormulaRepository {
    open spec fn nodes(&self) -> Seq<MetricNode> {
        declared_order()
    }

    /// All thirteen nodes in their declared topological order.
    fn load_all(&self) -> (r: Vec<MetricNode>) {
        self.formulas()
    }
}

impl Default for InMemoryFormulaRepository {
    fn default() -> (r: Self)
        ensures
            r.nodes() == declared_order(),
            order_error(r.nodes()) is None,
    {
        proof { lemma_declared_order_is_sound(); }
        InMemoryFormulaRepository
    }
}

} // verus!
