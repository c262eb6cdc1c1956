//! Alternatives as they enter the evaluator, and the evaluated records.
use vstd::prelude::*;
use crate::fixed::{round_div, round_div_i128};

verus! {

/// Safety classification of an asset.
#[derive(Clone, Copy, Debug, PartialEq, Eq, Structural)]
pub enum SafetyRiskLevel {
    Negligible,
    Low,
    Medium,
    High,
    Critical,
}

/// One candidate course of action for an asset.
///
/// Amounts are integer cents; the probability of failure after the action is
/// in millionths (`50_000` is `0.05`). The probability is not held to `[0, 1]`.
#[derive(Clone, Debug)]
pub struct Asset {
    pub asset_id: String,
    pub alternative_id: String,
    pub cost_cents: u64,
    pub pof_ppm: i64,
    pub cof_total_cents: u64,
    pub safety_risk_level: SafetyRiskLevel,
}

impl SafetyRiskLevel {
    pub open spec fn spec_is_high_risk(self) -> bool {
        self == SafetyRiskLevel::High || self == SafetyRiskLevel::Critical
    }

    pub open spec fn spec_is_critical(self) -> bool {
        self == SafetyRiskLevel::Critical
    }
}

impl Asset {
    /// High or critical safety classification.
    pub fn is_high_risk(&self) -> (r: bool)
        ensures
            r == self.safety_risk_level.spec_is_high_risk(),
    {
        match self.safety_risk_level {
            SafetyRiskLevel::High | SafetyRiskLevel::Critical => true,
            _ => false,
        }
    }

    /// Critical safety classification.
    pub fn is_critical(&self) -> (r: bool)
        ensures
            r == self.safety_risk_level.spec_is_critical(),
    {
        match self.safety_risk_level {
            SafetyRiskLevel::Critical => true,
            _ => false,
        }
    }
}


impl Asset {
    /// A copy of the alternative, field for field.
    pub fn duplicate(&self) -> (r: Asset)
        ensures
            r == *self,
    {
        Asset {
            asset_id: self.asset_id.clone(),
            alternative_id: self.alternative_id.clone(),
            cost_cents: self.cost_cents,
            pof_ppm: self.pof_ppm,
            cof_total_cents: self.cof_total_cents,
            safety_risk_level: self.safety_risk_level,
        }
    }
}

/// An alternative with its evaluated metrics.
///
/// Money is in cents, `roi` and `priority_score` in ten-thousandths,
/// `criticality_score` and `cost_effectiveness` in hundredths, and
/// `payback_period` in tenths of a month.
#[derive(Clone, Debug)]
pub struct RiskCalculationResult {
    pub asset: Asset,
    pub baseline_risk: i128,
    pub post_action_risk: i128,
    pub risk_reduction: i128,
    pub roi: i128,
    pub criticality_score: i128,
    pub priority_score: i128,
    pub cost_effectiveness: i128,
    pub payback_period: i128,
    pub calculation_time_ns: u64,
}

/// Bound on `risk_reduction` under which `cost_benefit_ratio` is computed in `i128`.
pub const MAX_RATIO_NUMERATOR: i128 = 1_000_000_000_000_000_000_000_000_000_000_000;

impl RiskCalculationResult {
    pub fn new(
        asset: Asset,
        baseline_risk: i128,
        post_action_risk: i128,
        risk_reduction: i128,
        roi: i128,
        criticality_score: i128,
        priority_score: i128,
        cost_effectiveness: i128,
        payback_period: i128,
        calculation_time_ns: u64,
    ) -> (r: Self)
        ensures
            r.asset == asset,
            r.baseline_risk == baseline_risk,
            r.post_action_risk == post_action_risk,
            r.risk_reduction == risk_reduction,
            r.roi == roi,
            r.criticality_score == criticality_score,
            r.priority_score == priority_score,
            r.cost_effectiveness == cost_effectiveness,
            r.payback_period == payback_period,
            r.calculation_time_ns == calculation_time_ns,
    {
        RiskCalculationResult {
            asset,
            baseline_risk,
            post_action_risk,
            risk_reduction,
            roi,
            criticality_score,
            priority_score,
            cost_effectiveness,
            payback_period,
            calculation_time_ns,
        }
    }

    /// Risk reduction per unit of raw cost, in ten-thousandths; zero when the cost is zero.
    pub fn cost_benefit_ratio(&self) -> (r: i128)
        requires
            -MAX_RATIO_NUMERATOR <= self.risk_reduction <= MAX_RATIO_NUMERATOR,
        ensures
            r == if self.asset.cost_cents > 0 {
                round_div(self.risk_reduction * 10_000, self.asset.cost_cents as int)
            } else {
                0
            },
    {
        if self.asset.cost_cents > 0 {
            round_div_i128(self.risk_reduction * 10_000, self.asset.cost_cents as i128)
        } else {
            0
        }
    }
}

} // verus!
