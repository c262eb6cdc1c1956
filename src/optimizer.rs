//! The portfolio selector: at most one alternative per asset, total cost within
//! the budget, and the greatest total objective value.
use vstd::prelude::*;
use vstd::string::StringExecFns;
use crate::domain::RiskCalculationResult;
use crate::selection::{MAX_ITEMS, VALUE_LIMIT, masked_sum, select_within, exclusive, fits, weight_seq, value_seq, selection_for};

verus! {

/// Largest magnitude of a risk reduction (cents) that the selector takes.
pub const MAX_SELECTABLE_RISK_REDUCTION: i128 = 2_000_000_000_000_000_000;

/// Largest magnitude of a priority score (ten-thousandths) that the selector takes.
pub const MAX_SELECTABLE_PRIORITY: i128 = 1_000_000_000_000_000;

/// What the selector maximises. Weights are in ten-thousandths (`6_000` is `0.6`).
#[derive(Clone, Copy, Debug, PartialEq, Eq, Structural)]
pub enum Objective {
    RiskReduction,
    Priority,
    /// `risk_weight * risk_reduction / 1,000,000 + priority_weight * priority_score`.
    Combined { risk_weight: i32, priority_weight: i32 },
}

/// Why no selection was made.
#[derive(Clone, Copy, Debug, PartialEq, Eq, Structural)]
pub enum OptimizeError {
    /// There are no alternatives to choose from.
    EmptyInput,
    /// No choice satisfies the budget (it is negative).
    Infeasible,
}

/// The value coefficient of one alternative: dollars of risk reduction per
/// million and priority, weighted, in units of `10^-12`.
pub open spec fn objective_value(r: RiskCalculationResult, objective: Objective) -> int {
    match objective {
        Objective::RiskReduction => r.risk_reduction as int,
        Objective::Priority => r.priority_score as int,
        Objective::Combined { risk_weight, priority_weight } =>
            risk_weight * r.risk_reduction + priority_weight * r.priority_score * 10_000,
    }
}

pub open spec fn costs_of(results: Seq<RiskCalculationResult>) -> Seq<int> {
    results.map_values(|r: RiskCalculationResult| r.asset.cost_cents as int)
}

pub open spec fn values_of(results: Seq<RiskCalculationResult>, objective: Objective) -> Seq<int> {
    results.map_values(|r: RiskCalculationResult| objective_value(r, objective))
}

pub open spec fn risk_reductions_of(results: Seq<RiskCalculationResult>) -> Seq<int> {
    results.map_values(|r: RiskCalculationResult| r.risk_reduction as int)
}

pub open spec fn priorities_of(results: Seq<RiskCalculationResult>) -> Seq<int> {
    results.map_values(|r: RiskCalculationResult| r.priority_score as int)
}

/// The two alternatives belong to the same asset.
pub open spec fn same_asset(results: Seq<RiskCalculationResult>, i: int, j: int) -> bool {
    results[i].asset.asset_id@ == results[j].asset.asset_id@
}

/// A choice, one flag per alternative, with no two chosen alternatives of one
/// asset and a total cost within `budget`.
pub open spec fn feasible(results: Seq<RiskCalculationResult>, mask: Seq<bool>, budget: int) -> bool {
    &&& mask.len() == results.len()
    &&& forall|i: int, j: int|
        0 <= i < j < mask.len() && #[trigger] mask[i] && #[trigger] mask[j] ==> !same_asset(results, i, j)
    &&& masked_sum(costs_of(results), mask, mask.len() as int) <= budget
}

/// Total objective value of a choice.
pub open spec fn selection_value(results: Seq<RiskCalculationResult>, mask: Seq<bool>, objective: Objective) -> int {
    masked_sum(values_of(results, objective), mask, mask.len() as int)
}

/// Inputs in the range that the `i128` totals cover.
pub open spec fn selectable(results: Seq<RiskCalculationResult>) -> bool {
    &&& results.len() <= MAX_ITEMS
    &&& forall|i: int| 0 <= i < results.len() ==> -MAX_SELECTABLE_RISK_REDUCTION <= #[trigger] results[i].risk_reduction <= MAX_SELECTABLE_RISK_REDUCTION
        && -MAX_SELECTABLE_PRIORITY <= results[i].priority_score <= MAX_SELECTABLE_PRIORITY
}

/// `asset_id (alternative_id)`, the label of a chosen alternative.
pub open spec fn alternative_label(r: RiskCalculationResult) -> Seq<char> {
    r.asset.asset_id@ + " ("@ + r.asset.alternative_id@ + ")"@
}

/// The outcome of one selection.
pub struct OptimizationSolution {
    /// Labels of the chosen alternatives, in input order.
    pub selected_alternatives: Vec<String>,
    /// Positions of the chosen alternatives in the input, ascending.
    pub selected_indices: Vec<usize>,
    pub total_cost: u64,
    pub total_risk_reduction: i128,
    pub total_priority_score: i128,
    pub num_assets_optimized: usize,
}

/// The choice that a solution describes, one flag per alternative.
pub open spec fn chosen(sol: OptimizationSolution, n: int) -> Seq<bool> {
    Seq::new(n as nat, |i: int| sol.selected_indices@.contains(i as usize))
}

/// `sol` is a best feasible choice for `objective` within `budget`, with its totals.
pub open spec fn optimal_outcome(
    results: Seq<RiskCalculationResult>,
    budget: int,
    objective: Objective,
    sol: OptimizationSolution,
) -> bool {
    let n = results.len() as int;
    let m = chosen(sol, n);
    &&& forall|a: int, b: int| 0 <= a < b < sol.selected_indices@.len() ==>
        sol.selected_indices@[a] < sol.selected_indices@[b]
    &&& forall|a: int| 0 <= a < sol.selected_indices@.len() ==> #[trigger] sol.selected_indices@[a] < n
    &&& feasible(results, m, budget)
    &&& forall|other: Seq<bool>| #[trigger] feasible(results, other, budget) ==>
        selection_value(results, other, objective) <= selection_value(results, m, objective)
    &&& sol.total_cost == masked_sum(costs_of(results), m, n)
    &&& sol.total_risk_reduction == masked_sum(risk_reductions_of(results), m, n)
    &&& sol.total_priority_score == masked_sum(priorities_of(results), m, n)
    &&& sol.num_assets_optimized == sol.selected_indices@.len()
    &&& sol.selected_alternatives@.len() == sol.selected_indices@.len()
    &&& forall|a: int| 0 <= a < sol.selected_indices@.len() ==>
        (#[trigger] sol.selected_alternatives@[a])@ == alternative_label(results[sol.selected_indices@[a] as int])
}

/// The first position at or after `k` (and before `i`) holding the asset of
/// alternative `i`, or `i` itself.
pub open spec fn first_of_asset_from(results: Seq<RiskCalculationResult>, i: int, k: int) -> int
    decreases i - k,
{
    if k >= i {
        i
    } else if same_asset(results, k, i) {
        k
    } else {
        first_of_asset_from(results, i, k + 1)
    }
}

/// Group label of each alternative: the first position of its asset.
pub open spec fn asset_label_seq(results: Seq<RiskCalculationResult>) -> Seq<usize> {
    Seq::new(results.len(), |i: int| first_of_asset_from(results, i, 0) as usize)
}

pub open spec fn cost_weights(results: Seq<RiskCalculationResult>) -> Seq<u64> {
    results.map_values(|r: RiskCalculationResult| r.asset.cost_cents)
}

pub open spec fn coefficients(results: Seq<RiskCalculationResult>, objective: Objective) -> Seq<i128> {
    results.map_values(|r: RiskCalculationResult| objective_value(r, objective) as i128)
}

/// The choice the selector makes; among equally good choices, the one the
/// table walk leads to.
pub open spec fn selector_choice(results: Seq<RiskCalculationResult>, budget: int, objective: Objective) -> Seq<bool> {
    selection_for(asset_label_seq(results), cost_weights(results), coefficients(results, objective), budget)
}

/// Group labels: each alternative is labelled with the first position of its asset.
fn asset_labels(results: &[RiskCalculationResult]) -> (labels: Vec<usize>)
    ensures
        labels@.len() == results@.len(),
        forall|i: int| 0 <= i < results@.len() ==> #[trigger] labels@[i] <= i && same_asset(results@, labels@[i] as int, i),
        forall|i: int, k: int| 0 <= i < results@.len() && 0 <= k < labels@[i] ==> !same_asset(results@, k, i),
        labels@ == asset_label_seq(results@),
{
    let mut labels: Vec<usize> = Vec::new();
    let mut i: usize = 0;
    while i < results.len()
        invariant
            i <= results@.len(),
            labels@.len() == i,
            forall|a: int| 0 <= a < i ==> #[trigger] labels@[a] <= a && same_asset(results@, labels@[a] as int, a),
            forall|a: int, k: int| 0 <= a < i && 0 <= k < labels@[a] ==> !same_asset(results@, k, a),
            forall|a: int| 0 <= a < i ==> #[trigger] labels@[a] == first_of_asset_from(results@, a, 0) as usize,
        decreases results@.len() - i,
    {
        let mut k: usize = 0;
        while k < i && results[k].asset.asset_id != results[i].asset.asset_id
            invariant
                k <= i < results@.len(),
                forall|b: int| 0 <= b < k ==> !same_asset(results@, b, i as int),
                first_of_asset_from(results@, i as int, 0) == first_of_asset_from(results@, i as int, k as int),
            decreases i - k,
        {
            k += 1;
        }
        assert(first_of_asset_from(results@, i as int, k as int) == k);
        labels.push(k);
        i += 1;
    }
    assert(labels@ =~= asset_label_seq(results@));
    labels
}

proof fn lemma_labels_match_assets(results: Seq<RiskCalculationResult>, labels: Seq<usize>, i: int, j: int)
    requires
        labels.len() == results.len(),
        0 <= i < results.len(),
        0 <= j < results.len(),
        forall|a: int| 0 <= a < results.len() ==> #[trigger] labels[a] <= a && same_asset(results, labels[a] as int, a),
        forall|a: int, k: int| 0 <= a < results.len() && 0 <= k < labels[a] ==> !same_asset(results, k, a),
    ensures
        (labels[i] == labels[j]) <==> same_asset(results, i, j),
{
    assert(labels[i] <= i && same_asset(results, labels[i] as int, i));
    assert(labels[j] <= j && same_asset(results, labels[j] as int, j));
    if same_asset(results, i, j) {
        if labels[i] < labels[j] {
            assert(!same_asset(results, labels[i] as int, j));
        }
        if labels[j] < labels[i] {
            assert(!same_asset(results, labels[j] as int, i));
        }
    }
}

/// The objective coefficient of one alternative.
fn coefficient(r: &RiskCalculationResult, objective: Objective) -> (v: i128)
    requires
        -MAX_SELECTABLE_RISK_REDUCTION <= r.risk_reduction <= MAX_SELECTABLE_RISK_REDUCTION,
        -MAX_SELECTABLE_PRIORITY <= r.priority_score <= MAX_SELECTABLE_PRIORITY,
    ensures
        v == objective_value(*r, objective),
        -VALUE_LIMIT <= v <= VALUE_LIMIT,
{
    match objective {
        Objective::RiskReduction => r.risk_reduction,
        Objective::Priority => r.priority_score,
        Objective::Combined { risk_weight, priority_weight } => {
            let rw: i128 = risk_weight as i128;
            let pw: i128 = priority_weight as i128;
            proof {
                let a = rw * r.risk_reduction;
                let b = pw * r.priority_score;
                assert(-4_400_000_000_000_000_000_000_000_000int <= a <= 4_400_000_000_000_000_000_000_000_000int)
                    by (nonlinear_arith)
                    requires a == rw * r.risk_reduction, -2_147_483_648 <= rw <= 2_147_483_647,
                        -2_000_000_000_000_000_000 <= r.risk_reduction <= 2_000_000_000_000_000_000int;
                assert(-2_200_000_000_000_000_000_000_000int <= b <= 2_200_000_000_000_000_000_000_000int)
                    by (nonlinear_arith)
                    requires b == pw * r.priority_score, -2_147_483_648 <= pw <= 2_147_483_647,
                        -1_000_000_000_000_000 <= r.priority_score <= 1_000_000_000_000_000int;
            }
            rw * r.risk_reduction + pw * r.priority_score * 10_000
        }
    }
}

/// Selects at most one alternative per asset, with total cost within `budget`
/// (cents), maximising the total of `objective`.
pub fn select(results: &[RiskCalculationResult], budget: i64, objective: Objective) -> (r: Result<OptimizationSolution, OptimizeError>)
    requires
        selectable(results@),
        budget < usize::MAX,
    ensures
        results@.len() == 0 ==> r == Err::<OptimizationSolution, OptimizeError>(OptimizeError::EmptyInput),
        results@.len() > 0 && budget < 0 ==> r == Err::<OptimizationSolution, OptimizeError>(OptimizeError::Infeasible),
        results@.len() > 0 && budget >= 0 ==> r is Ok,
        r matches Ok(sol) ==> optimal_outcome(results@, budget as int, objective, sol),
        r matches Ok(sol) ==> chosen(sol, results@.len() as int) == selector_choice(results@, budget as int, objective),
{
    let n = results.len();
    if n == 0 {
        return Err(OptimizeError::EmptyInput);
    }
    if budget < 0 {
        return Err(OptimizeError::Infeasible);
    }
    let labels = asset_labels(results);
    let mut weights: Vec<u64> = Vec::new();
    let mut values: Vec<i128> = Vec::new();
    let mut i: usize = 0;
    while i < n
        invariant
            i <= n == results@.len(),
            selectable(results@),
            weights@.len() == i,
            values@.len() == i,
            forall|k: int| 0 <= k < i ==> #[trigger] weights@[k] == results@[k].asset.cost_cents,
            forall|k: int| 0 <= k < i ==> #[trigger] values@[k] == objective_value(results@[k], objective),
            forall|k: int| 0 <= k < i ==> -VALUE_LIMIT <= #[trigger] values@[k] <= VALUE_LIMIT,
        decreases n - i,
    {
        weights.push(results[i].asset.cost_cents);
        values.push(coefficient(&results[i], objective));
        i += 1;
    }
    let ghost rs = results@;
    let ghost l = labels@;
    proof {
        assert forall|a: int| 0 <= a < l.len() implies (#[trigger] l[a]) < l.len() by {}
        assert(weight_seq(weights@) =~= costs_of(rs));
        assert(value_seq(values@) =~= values_of(rs, objective));
        assert(weights@ =~= cost_weights(rs));
        assert(values@ =~= coefficients(rs, objective));
    }
    let mask = select_within(&labels, &weights, &values, budget as u64);
    proof {
        // label exclusivity is asset exclusivity
        assert forall|m: Seq<bool>| m.len() == n implies (exclusive(l, m) <==> forall|a: int, b: int|
            0 <= a < b < m.len() && #[trigger] m[a] && #[trigger] m[b] ==> !same_asset(rs, a, b)) by {
            assert forall|a: int, b: int| 0 <= a < n && 0 <= b < n implies (l[a] == l[b]) == #[trigger] same_asset(rs, a, b) by {
                lemma_labels_match_assets(rs, l, a, b);
            }
        }
        assert forall|m: Seq<bool>| #[trigger] feasible(rs, m, budget as int) implies fits(l, weights@, m, budget as int) by {}
        assert(feasible(rs, mask@, budget as int));
    }
    let mut selected_alternatives: Vec<String> = Vec::new();
    let mut selected_indices: Vec<usize> = Vec::new();
    let mut total_cost: u64 = 0;
    let mut total_risk_reduction: i128 = 0;
    let mut total_priority_score: i128 = 0;
    let mut i: usize = 0;
    proof {
        lemma_masked_sum_nonneg_prefix(costs_of(rs), mask@, n as int);
    }
    while i < n
        invariant
            i <= n == rs.len(),
            results@ == rs,
            selectable(rs),
            mask@.len() == n,
            budget >= 0,
            masked_sum(costs_of(rs), mask@, n as int) <= budget,
            forall|k: int| 0 <= k <= n ==> #[trigger] masked_sum(costs_of(rs), mask@, k) <= masked_sum(costs_of(rs), mask@, n as int),
            forall|a: int, b: int| 0 <= a < b < selected_indices@.len() ==> selected_indices@[a] < selected_indices@[b],
            forall|a: int| 0 <= a < selected_indices@.len() ==> #[trigger] selected_indices@[a] < i,
            forall|k: int| 0 <= k < i ==> (mask@[k] <==> #[trigger] selected_indices@.contains(k as usize)),
            selected_indices@.len() <= i,
            total_cost == masked_sum(costs_of(rs), mask@, i as int),
            total_risk_reduction == masked_sum(risk_reductions_of(rs), mask@, i as int),
            total_priority_score == masked_sum(priorities_of(rs), mask@, i as int),
            -i * MAX_SELECTABLE_RISK_REDUCTION <= total_risk_reduction <= i * MAX_SELECTABLE_RISK_REDUCTION,
            -i * MAX_SELECTABLE_PRIORITY <= total_priority_score <= i * MAX_SELECTABLE_PRIORITY,
            selected_alternatives@.len() == selected_indices@.len(),
            forall|a: int| 0 <= a < selected_indices@.len() ==>
                (#[trigger] selected_alternatives@[a])@ == alternative_label(rs[selected_indices@[a] as int]),
        decreases n - i,
    {
        proof {
            assert(i * MAX_SELECTABLE_RISK_REDUCTION + MAX_SELECTABLE_RISK_REDUCTION == (i + 1) * MAX_SELECTABLE_RISK_REDUCTION) by (nonlinear_arith);
            assert(i * MAX_SELECTABLE_PRIORITY + MAX_SELECTABLE_PRIORITY == (i + 1) * MAX_SELECTABLE_PRIORITY) by (nonlinear_arith);
            assert((i + 1) * MAX_SELECTABLE_RISK_REDUCTION <= MAX_ITEMS * MAX_SELECTABLE_RISK_REDUCTION) by (nonlinear_arith)
                requires i + 1 <= MAX_ITEMS;
            assert((i + 1) * MAX_SELECTABLE_PRIORITY <= MAX_ITEMS * MAX_SELECTABLE_PRIORITY) by (nonlinear_arith)
                requires i + 1 <= MAX_ITEMS;
            assert(masked_sum(costs_of(rs), mask@, i + 1) <= budget);
        }
        if mask[i] {
            let r = &results[i];
            let label = label_of(r);
            let ghost before = selected_indices@;
            selected_alternatives.push(label);
            selected_indices.push(i);
            total_cost = total_cost + r.asset.cost_cents;
            total_risk_reduction = total_risk_reduction + r.risk_reduction;
            total_priority_score = total_priority_score + r.priority_score;
            proof {
                assert forall|k: int| 0 <= k < i + 1 implies (mask@[k] <==> #[trigger] selected_indices@.contains(k as usize)) by {
                    if k < i {
                        if before.contains(k as usize) {
                            let t = choose|t: int| 0 <= t < before.len() && #[trigger] before[t] == k as usize;
                            assert(selected_indices@[t] == k as usize);
                        }
                        if selected_indices@.contains(k as usize) {
                            let t = choose|t: int| 0 <= t < selected_indices@.len() && #[trigger] selected_indices@[t] == k as usize;
                            assert(t < before.len());
                            assert(before[t] == k as usize);
                        }
                    } else {
                        assert(selected_indices@[before.len() as int] == i);
                    }
                }
            }
        } else {
            proof {
                assert forall|k: int| 0 <= k < i + 1 implies (mask@[k] <==> #[trigger] selected_indices@.contains(k as usize)) by {
                    if k == i && selected_indices@.contains(k as usize) {
                        let t = choose|t: int| 0 <= t < selected_indices@.len() && #[trigger] selected_indices@[t] == k as usize;
                        assert(selected_indices@[t] < i);
                    }
                }
            }
        }
        i += 1;
    }
    let num_assets_optimized = selected_indices.len();
    let sol = OptimizationSolution {
        selected_alternatives,
        selected_indices,
        total_cost,
        total_risk_reduction,
        total_priority_score,
        num_assets_optimized,
    };
    proof {
        let m = chosen(sol, n as int);
        assert forall|k: int| 0 <= k < n implies m[k] == mask@[k] by {}
        assert(m =~= mask@);
    }
    Ok(sol)
}

proof fn lemma_masked_sum_nonneg_prefix(xs: Seq<int>, mask: Seq<bool>, n: int)
    requires
        0 <= n <= xs.len(),
        forall|i: int| 0 <= i < xs.len() ==> #[trigger] xs[i] >= 0,
    ensures
        forall|k: int| 0 <= k <= n ==> #[trigger] masked_sum(xs, mask, k) <= masked_sum(xs, mask, n),
        masked_sum(xs, mask, n) >= 0,
    decreases n,
{
    if n > 0 {
        lemma_masked_sum_nonneg_prefix(xs, mask, n - 1);
    }
}


/// Whether `results` is in the range that `select` takes.
pub fn is_selectable(results: &[RiskCalculationResult]) -> (r: bool)
    ensures
        r == selectable(results@),
{
    if results.len() > MAX_ITEMS {
        return false;
    }
    let mut i: usize = 0;
    while i < results.len()
        invariant
            i <= results@.len() <= MAX_ITEMS,
            forall|k: int| 0 <= k < i ==> -MAX_SELECTABLE_RISK_REDUCTION <= #[trigger] results@[k].risk_reduction <= MAX_SELECTABLE_RISK_REDUCTION
                && -MAX_SELECTABLE_PRIORITY <= results@[k].priority_score <= MAX_SELECTABLE_PRIORITY,
        decreases results@.len() - i,
    {
        let r = &results[i];
        if r.risk_reduction < -MAX_SELECTABLE_RISK_REDUCTION || r.risk_reduction > MAX_SELECTABLE_RISK_REDUCTION
            || r.priority_score < -MAX_SELECTABLE_PRIORITY || r.priority_score > MAX_SELECTABLE_PRIORITY {
            return false;
        }
        i += 1;
    }
    true
}

/// Selects investment alternatives under a budget, one objective per call.
pub struct PortfolioOptimizer;

impl PortfolioOptimizer {
    pub fn new() -> (r: Self) {
        PortfolioOptimizer
    }

    /// Maximises total risk reduction.
    pub fn optimize(&self, results: &[RiskCalculationResult], budget: i64) -> (r: Result<OptimizationSolution, OptimizeError>)
        requires
            selectable(results@),
            budget < usize::MAX,
        ensures
            results@.len() == 0 ==> r == Err::<OptimizationSolution, OptimizeError>(OptimizeError::EmptyInput),
            results@.len() > 0 && budget < 0 ==> r == Err::<OptimizationSolution, OptimizeError>(OptimizeError::Infeasible),
            results@.len() > 0 && budget >= 0 ==> r is Ok,
            r matches Ok(sol) ==> optimal_outcome(results@, budget as int, Objective::RiskReduction, sol),
            r matches Ok(sol) ==> chosen(sol, results@.len() as int) == selector_choice(results@, budget as int, Objective::RiskReduction),
    {
        select(results, budget, Objective::RiskReduction)
    }

    /// Maximises total priority score.
    pub fn optimize_by_priority(&self, results: &[RiskCalculationResult], budget: i64) -> (r: Result<OptimizationSolution, OptimizeError>)
        requires
            selectable(results@),
            budget < usize::MAX,
        ensures
            results@.len() == 0 ==> r == Err::<OptimizationSolution, OptimizeError>(OptimizeError::EmptyInput),
            results@.len() > 0 && budget < 0 ==> r == Err::<OptimizationSolution, OptimizeError>(OptimizeError::Infeasible),
            results@.len() > 0 && budget >= 0 ==> r is Ok,
            r matches Ok(sol) ==> optimal_outcome(results@, budget as int, Objective::Priority, sol),
            r matches Ok(sol) ==> chosen(sol, results@.len() as int) == selector_choice(results@, budget as int, Objective::Priority),
    {
        select(results, budget, Objective::Priority)
    }

    /// Maximises `risk_weight * risk_reduction / 1,000,000 + priority_weight * priority_score`,
    /// weights in ten-thousandths.
    pub fn optimize_combined(
        &self,
        results: &[RiskCalculationResult],
        budget: i64,
        risk_weight: i32,
        priority_weight: i32,
    ) -> (r: Result<OptimizationSolution, OptimizeError>)
        requires
            selectable(results@),
            budget < usize::MAX,
        ensures
            results@.len() == 0 ==> r == Err::<OptimizationSolution, OptimizeError>(OptimizeError::EmptyInput),
            results@.len() > 0 && budget < 0 ==> r == Err::<OptimizationSolution, OptimizeError>(OptimizeError::Infeasible),
            results@.len() > 0 && budget >= 0 ==> r is Ok,
            r matches Ok(sol) ==> optimal_outcome(
                results@,
                budget as int,
                Objective::Combined { risk_weight, priority_weight },
                sol,
            ),
            r matches Ok(sol) ==> chosen(sol, results@.len() as int) == selector_choice(
                results@,
                budget as int,
                Objective::Combined { risk_weight, priority_weight },
            ),
    {
        select(results, budget, Objective::Combined { risk_weight, priority_weight })
    }
}

impl Default for PortfolioOptimizer {
    fn default() -> (r: Self) {
        PortfolioOptimizer
    }
}

/// Every outcome of the selector stays within the budget and takes at most one
/// alternative of each asset, whatever the objective.
pub proof fn lemma_outcome_within_budget_one_per_asset(
    results: Seq<RiskCalculationResult>,
    budget: int,
    objective: Objective,
    sol: OptimizationSolution,
)
    requires
        optimal_outcome(results, budget, objective, sol),
    ensures
        sol.total_cost <= budget,
        forall|a: int, b: int|
            0 <= a < b < sol.selected_indices@.len() ==> !same_asset(
                results,
                #[trigger] sol.selected_indices@[a] as int,
                #[trigger] sol.selected_indices@[b] as int,
            ),
{
    let n = results.len() as int;
    let m = chosen(sol, n);
    assert forall|a: int, b: int|
        0 <= a < b < sol.selected_indices@.len() implies !same_asset(
            results,
            #[trigger] sol.selected_indices@[a] as int,
            #[trigger] sol.selected_indices@[b] as int,
        ) by {
        let i = sol.selected_indices@[a] as int;
        let j = sol.selected_indices@[b] as int;
        assert(sol.selected_indices@.contains(i as usize));
        assert(sol.selected_indices@.contains(j as usize));
        assert(m[i] && m[j]);
        assert(i < j);
    }
}


/// Two outcomes of the selector on the same inputs choose the same alternatives
/// and report the same totals.
pub proof fn lemma_selector_is_deterministic(
    results: Seq<RiskCalculationResult>,
    budget: int,
    objective: Objective,
    s1: OptimizationSolution,
    s2: OptimizationSolution,
)
    requires
        optimal_outcome(results, budget, objective, s1),
        optimal_outcome(results, budget, objective, s2),
        chosen(s1, results.len() as int) == selector_choice(results, budget, objective),
        chosen(s2, results.len() as int) == selector_choice(results, budget, objective),
    ensures
        s1.selected_indices@ == s2.selected_indices@,
        s1.total_cost == s2.total_cost,
        s1.total_risk_reduction == s2.total_risk_reduction,
        s1.total_priority_score == s2.total_priority_score,
        s1.num_assets_optimized == s2.num_assets_optimized,
{
    let n = results.len() as int;
    let a = s1.selected_indices@;
    let b = s2.selected_indices@;
    let m = chosen(s1, n);
    // both index lists are the ascending positions of one choice
    assert forall|k: usize| (k as int) < n implies (m[k as int] <==> #[trigger] a.contains(k)) by {
        assert(m[k as int] == a.contains((k as int) as usize));
    }
    assert forall|k: usize| (k as int) < n implies (m[k as int] <==> #[trigger] b.contains(k)) by {
        assert(chosen(s2, n)[k as int] == b.contains((k as int) as usize));
    }
    lemma_sorted_indices_equal(a, b, n, m);
}

/// Two strictly ascending index lists below `n` holding exactly the marked positions are equal.
proof fn lemma_sorted_indices_equal(a: Seq<usize>, b: Seq<usize>, n: int, m: Seq<bool>)
    requires
        m.len() == n,
        forall|x: int, y: int| 0 <= x < y < a.len() ==> a[x] < a[y],
        forall|x: int, y: int| 0 <= x < y < b.len() ==> b[x] < b[y],
        forall|x: int| 0 <= x < a.len() ==> #[trigger] a[x] < n,
        forall|x: int| 0 <= x < b.len() ==> #[trigger] b[x] < n,
        forall|k: usize| (k as int) < n ==> (m[k as int] <==> #[trigger] a.contains(k)),
        forall|k: usize| (k as int) < n ==> (m[k as int] <==> #[trigger] b.contains(k)),
    ensures
        a == b,
    decreases a.len() + b.len(),
{
    if a.len() == 0 || b.len() == 0 {
        if a.len() > 0 {
            assert(a.contains(a[0]));
            assert(b.contains(a[0]));
        }
        if b.len() > 0 {
            assert(b.contains(b[0]));
            assert(a.contains(b[0]));
        }
        assert(a =~= b);
    } else {
        let la = a.last();
        let lb = b.last();
        assert(a.contains(la));
        assert(b.contains(lb));
        assert(b.contains(la));
        assert(a.contains(lb));
        let ia = choose|x: int| 0 <= x < a.len() && a[x] == lb;
        let ib = choose|x: int| 0 <= x < b.len() && b[x] == la;
        assert(la == lb) by {
            if ia < a.len() - 1 {
                assert(a[ia] < la);
            }
            if ib < b.len() - 1 {
                assert(b[ib] < lb);
            }
        }
        let m2 = m.update(la as int, false);
        let a2 = a.drop_last();
        let b2 = b.drop_last();
        assert forall|k: usize| (k as int) < n implies (m2[k as int] <==> #[trigger] a2.contains(k)) by {
            if a2.contains(k) {
                let x = choose|x: int| 0 <= x < a2.len() && a2[x] == k;
                assert(a[x] == k);
                assert(a[x] < la);
                assert(a.contains(k));
            }
            if m2[k as int] {
                assert(a.contains(k));
                let x = choose|x: int| 0 <= x < a.len() && a[x] == k;
                assert(x != a.len() - 1);
                assert(a2[x] == k);
            }
        }
        assert forall|k: usize| (k as int) < n implies (m2[k as int] <==> #[trigger] b2.contains(k)) by {
            if b2.contains(k) {
                let x = choose|x: int| 0 <= x < b2.len() && b2[x] == k;
                assert(b[x] == k);
                assert(b[x] < lb);
                assert(b.contains(k));
            }
            if m2[k as int] {
                assert(b.contains(k));
                let x = choose|x: int| 0 <= x < b.len() && b[x] == k;
                assert(x != b.len() - 1);
                assert(b2[x] == k);
            }
        }
        lemma_sorted_indices_equal(a2, b2, n, m2);
        assert(a =~= a2.push(la));
        assert(b =~= b2.push(lb));
    }
}

/// `asset_id (alternative_id)` of an evaluated alternative.
pub fn label_of(r: &RiskCalculationResult) -> (s: String)
    ensures
        s@ == alternative_label(*r),
{
    let mut label: String = r.asset.asset_id.clone();
    label.append(" (");
    label.append(r.asset.alternative_id.as_str());
    label.append(")");
    label
}

} // verus!
