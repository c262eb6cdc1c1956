//! The metric formula graph: thirteen named nodes, each a closed-form rule
//! over raw attributes and earlier nodes, in fixed-point integer units.
use vstd::prelude::*;
use crate::domain::{Asset, SafetyRiskLevel};
use vstd::arithmetic::div_mod::{lemma_fundamental_div_mod, lemma_fundamental_div_mod_converse};
use crate::fixed::{round_div, half_up_div, min_int, max_int, round_div_i128, lemma_round_div_bounds, lemma_round_div_monotone, ARITH_LIMIT};

verus! {

pub open spec fn power(b: int, n: nat) -> int
    decreases n,
{
    if n == 0 {
        1
    } else {
        b * power(b, (n - 1) as nat)
    }
}

/// Monthly rate `1.006666667` as a fraction over `10^9`.
pub const RATE_NUMERATOR: i128 = 1_006_666_667;

/// `1 / 1.006666667^n` in ten-thousandths, rounded half away from zero.
pub open spec fn discount_factor(n: nat) -> int {
    round_div(10_000 * power(1_000_000_000, n), power(RATE_NUMERATOR as int, n))
}

proof fn lemma_discount_table()
    ensures
        discount_factor(0) == 10000,
        discount_factor(1) == 9934,
        discount_factor(2) == 9868,
        discount_factor(3) == 9803,
        discount_factor(4) == 9738,
        discount_factor(5) == 9673,
        discount_factor(6) == 9609,
        discount_factor(7) == 9546,
        discount_factor(8) == 9482,
        discount_factor(9) == 9420,
        discount_factor(10) == 9357,
        discount_factor(11) == 9295,
        discount_factor(12) == 9234,
        discount_factor(13) == 9172,
        discount_factor(14) == 9112,
        discount_factor(15) == 9051,
        discount_factor(16) == 8991,
        discount_factor(17) == 8932,
        discount_factor(18) == 8873,
        discount_factor(19) == 8814,
        discount_factor(20) == 8756,
{
    assert(power(RATE_NUMERATOR as int, 0) == 1);
    assert(power(1_000_000_000, 0) == 1);
    assert(power(RATE_NUMERATOR as int, 1) == 1006666667) by { assert(power(RATE_NUMERATOR as int, 1) == RATE_NUMERATOR as int * power(RATE_NUMERATOR as int, 0)); }
    assert(power(1_000_000_000, 1) == 1000000000) by { assert(power(1_000_000_000, 1) == 1_000_000_000 * power(1_000_000_000, 0)); }
    assert(power(RATE_NUMERATOR as int, 2) == 1013377778448888889) by { assert(power(RATE_NUMERATOR as int, 2) == RATE_NUMERATOR as int * power(RATE_NUMERATOR as int, 1)); }
    assert(power(1_000_000_000, 2) == 1000000000000000000) by { assert(power(1_000_000_000, 2) == 1_000_000_000 * power(1_000_000_000, 1)); }
    assert(power(RATE_NUMERATOR as int, 3) == 1020133630643007407742962963) by { assert(power(RATE_NUMERATOR as int, 3) == RATE_NUMERATOR as int * power(RATE_NUMERATOR as int, 2)); }
    assert(power(1_000_000_000, 3) == 1000000000000000000000000000) by { assert(power(1_000_000_000, 3) == 1_000_000_000 * power(1_000_000_000, 2)); }
    assert(power(RATE_NUMERATOR as int, 4) == 1026934521854005334008918518667654321) by { assert(power(RATE_NUMERATOR as int, 4) == RATE_NUMERATOR as int * power(RATE_NUMERATOR as int, 3)); }
    assert(power(1_000_000_000, 4) == 1000000000000000000000000000000000000) by { assert(power(1_000_000_000, 4) == 1_000_000_000 * power(1_000_000_000, 3)); }
    assert(power(RATE_NUMERATOR as int, 5) == 1033780752342010210186979753461744856029218107) by { assert(power(RATE_NUMERATOR as int, 5) == RATE_NUMERATOR as int * power(RATE_NUMERATOR as int, 4)); }
    assert(power(1_000_000_000, 5) == 1000000000000000000000000000000000000000000000) by { assert(power(1_000_000_000, 5) == 1_000_000_000 * power(1_000_000_000, 4)); }
    assert(power(RATE_NUMERATOR as int, 6) == 1040672624368883862368896355213816406223327846389739369) by { assert(power(RATE_NUMERATOR as int, 6) == RATE_NUMERATOR as int * power(RATE_NUMERATOR as int, 5)); }
    assert(power(1_000_000_000, 6) == 1000000000000000000000000000000000000000000000000000000) by { assert(power(1_000_000_000, 6) == 1_000_000_000 * power(1_000_000_000, 5)); }
    assert(power(RATE_NUMERATOR as int, 7) == 1047610442211567296240983618371540634002755500773446913589913123) by { assert(power(RATE_NUMERATOR as int, 7) == RATE_NUMERATOR as int * power(RATE_NUMERATOR as int, 6)); }
    assert(power(1_000_000_000, 7) == 1000000000000000000000000000000000000000000000000000000000000000) by { assert(power(1_000_000_000, 7) == 1_000_000_000 * power(1_000_000_000, 6)); }
    assert(power(RATE_NUMERATOR as int, 8) == 1054594512175514558953112607907678777686620748779521726604994848349971041) by { assert(power(RATE_NUMERATOR as int, 8) == RATE_NUMERATOR as int * power(RATE_NUMERATOR as int, 7)); }
    assert(power(1_000_000_000, 8) == 1000000000000000000000000000000000000000000000000000000000000000000000000) by { assert(power(1_000_000_000, 8) == 1_000_000_000 * power(1_000_000_000, 7)); }
    assert(power(RATE_NUMERATOR as int, 9) == 1061625142608216160071304878278100838840424479666925454375535389540635797389990347) by { assert(power(RATE_NUMERATOR as int, 9) == RATE_NUMERATOR as int * power(RATE_NUMERATOR as int, 8)); }
    assert(power(1_000_000_000, 9) == 1000000000000000000000000000000000000000000000000000000000000000000000000000000000) by { assert(power(1_000_000_000, 9) == 1_000_000_000 * power(1_000_000_000, 8)); }
    assert(power(RATE_NUMERATOR as int, 10) == 1068702643912812648674518964157056470525394255811513117293680776929418499219468881776663449) by { assert(power(RATE_NUMERATOR as int, 10) == RATE_NUMERATOR as int * power(RATE_NUMERATOR as int, 9)); }
    assert(power(1_000_000_000, 10) == 1000000000000000000000000000000000000000000000000000000000000000000000000000000000000000000) by { assert(power(1_000_000_000, 10) == 1_000_000_000 * power(1_000_000_000, 9)); }
    assert(power(RATE_NUMERATOR as int, 11) == 1075827328561798947636619973476276501714582374358721290012809687873508214857404840728330832585554483) by { assert(power(RATE_NUMERATOR as int, 11) == RATE_NUMERATOR as int * power(RATE_NUMERATOR as int, 10)); }
    assert(power(1_000_000_000, 11) == 1000000000000000000000000000000000000000000000000000000000000000000000000000000000000000000000000000) by { assert(power(1_000_000_000, 11) == 1_000_000_000 * power(1_000_000_000, 10)); }
    assert(power(RATE_NUMERATOR as int, 12) == 1082999511110820050141463755844991669551438424092640223399135515796934832247623611285654651712235123748518161) by { assert(power(RATE_NUMERATOR as int, 12) == RATE_NUMERATOR as int * power(RATE_NUMERATOR as int, 11)); }
    assert(power(1_000_000_000, 12) == 1000000000000000000000000000000000000000000000000000000000000000000000000000000000000000000000000000000000000) by { assert(power(1_000_000_000, 12) == 1_000_000_000 * power(1_000_000_000, 11)); }
    assert(power(RATE_NUMERATOR as int, 13) == 1090219508212558687512680197597779532630111903437070632919343160368626236394919379443433553152201575144253323322839387) by { assert(power(RATE_NUMERATOR as int, 13) == RATE_NUMERATOR as int * power(RATE_NUMERATOR as int, 12)); }
    assert(power(1_000_000_000, 13) == 1000000000000000000000000000000000000000000000000000000000000000000000000000000000000000000000000000000000000000000000) by { assert(power(1_000_000_000, 13) == 1_000_000_000 * power(1_000_000_000, 12)); }
    assert(power(RATE_NUMERATOR as int, 14) == 1097487638630715581500284294752658128713572493670021738284495659077531464760427587438029569987694103362615537193076090687613129) by { assert(power(RATE_NUMERATOR as int, 14) == RATE_NUMERATOR as int * power(RATE_NUMERATOR as int, 13)); }
    assert(power(1_000_000_000, 14) == 1000000000000000000000000000000000000000000000000000000000000000000000000000000000000000000000000000000000000000000000000000000) by { assert(power(1_000_000_000, 14) == 1_000_000_000 * power(1_000_000_000, 13)); }
    assert(power(RATE_NUMERATOR as int, 15) == 1104804223254082898253858050551103947822549019865679381096399542899546894218007592941092296266955254047597675228568443689889246755871043) by { assert(power(RATE_NUMERATOR as int, 15) == RATE_NUMERATOR as int * power(RATE_NUMERATOR as int, 14)); }
    assert(power(1_000_000_000, 15) == 1000000000000000000000000000000000000000000000000000000000000000000000000000000000000000000000000000000000000000000000000000000000000000) by { assert(power(1_000_000_000, 15) == 1_000_000_000 * power(1_000_000_000, 14)); }
    assert(power(RATE_NUMERATOR as int, 16) == 1112169585110711525326911403639397324325067329272300250258935333551010387812643274966702109222432387830233411079291458390677989630873265538623681) by { assert(power(RATE_NUMERATOR as int, 16) == RATE_NUMERATOR as int * power(RATE_NUMERATOR as int, 15)); }
    assert(power(1_000_000_000, 16) == 1000000000000000000000000000000000000000000000000000000000000000000000000000000000000000000000000000000000000000000000000000000000000000000000000) by { assert(power(1_000_000_000, 16) == 1_000_000_000 * power(1_000_000_000, 15)); }
    assert(power(RATE_NUMERATOR as int, 17) == 1119584049382172797199327988105963774367033552909138028351428319194328901581731026070694548272815973489912429763231205139712995691971750519172260719541227) by { assert(power(RATE_NUMERATOR as int, 17) == RATE_NUMERATOR as int * power(RATE_NUMERATOR as int, 16)); }
    assert(power(1_000_000_000, 17) == 1000000000000000000000000000000000000000000000000000000000000000000000000000000000000000000000000000000000000000000000000000000000000000000000000000000000) by { assert(power(1_000_000_000, 17) == 1_000_000_000 * power(1_000_000_000, 16)); }
    assert(power(RATE_NUMERATOR as int, 18) == 1127047943417915298974714440426446195564801701384210132843483850772767200657052200105076187284866262737450503791623556428388150709822560753290659297395588753180409) by { assert(power(RATE_NUMERATOR as int, 18) == RATE_NUMERATOR as int * power(RATE_NUMERATOR as int, 17)); }
    assert(power(1_000_000_000, 18) == 1000000000000000000000000000000000000000000000000000000000000000000000000000000000000000000000000000000000000000000000000000000000000000000000000000000000000000000) by { assert(power(1_000_000_000, 18) == 1_000_000_000 * power(1_000_000_000, 17)); }
    assert(power(RATE_NUMERATOR as int, 19) == 1134561596749717382107184303020860650344049111248372100857177120725746932252354948324794095235124100250655594729384548068451923857350761394920117277141779110666807977726803) by { assert(power(RATE_NUMERATOR as int, 19) == RATE_NUMERATOR as int * power(RATE_NUMERATOR as int, 18)); }
    assert(power(1_000_000_000, 19) == 1000000000000000000000000000000000000000000000000000000000000000000000000000000000000000000000000000000000000000000000000000000000000000000000000000000000000000000000000000) by { assert(power(1_000_000_000, 19) == 1_000_000_000 * power(1_000_000_000, 18)); }
    assert(power(RATE_NUMERATOR as int, 20) == 1142125341106236030237804659076727822353296322104710951945682335149644285375952958731077705311622959330701332111132309965369786039217074423336505190629430063785179734467251012575601) by { assert(power(RATE_NUMERATOR as int, 20) == RATE_NUMERATOR as int * power(RATE_NUMERATOR as int, 19)); }
    assert(power(1_000_000_000, 20) == 1000000000000000000000000000000000000000000000000000000000000000000000000000000000000000000000000000000000000000000000000000000000000000000000000000000000000000000000000000000000000) by { assert(power(1_000_000_000, 20) == 1_000_000_000 * power(1_000_000_000, 19)); }
}


/// `e^0.5` to sixteen decimal places.
pub const E_HALF_E16: i128 = 16_487_212_707_001_281;

/// Consequences above one million dollars (in cents) are scaled by `e^0.5`.
pub const HIGH_CONSEQUENCE_CENTS: i128 = 100_000_000;

/// Sentinel return on investment when the adjusted cost is not positive (`999.9999`).
pub const ROI_SENTINEL: i128 = 9_999_999;

/// Sentinel payback period when nothing is reduced (`999.9` months).
pub const PAYBACK_SENTINEL: i128 = 9_999;

// ---- node rules, in the units of each node ----------------------------------
// money: cents; probability: millionths; safety multiplier: 10^-8;
// criticality, complexity, cost effectiveness: hundredths;
// degradation, discount, return on investment, priority: ten-thousandths;
// payback period: tenths of a month.

/// `consequence * (e^0.5 if consequence > 1,000,000 else 1)`, to the cent.
pub open spec fn baseline_risk(cof: int) -> int {
    if cof > HIGH_CONSEQUENCE_CENTS {
        round_div(cof * E_HALF_E16, 10_000_000_000_000_000)
    } else {
        cof
    }
}

/// `1.5 + 0.2p` when critical, `1.25 + 0.15 max(0, p - 0.1)` when high risk, else `1`.
pub open spec fn safety_multiplier(pof: int, critical: bool, high_risk: bool) -> int {
    if critical {
        150_000_000 + 20 * pof
    } else if high_risk {
        125_000_000 + 15 * max_int(0, pof - 100_000)
    } else {
        100_000_000
    }
}

/// `(10p + consequence / 500,000)` scaled by 1.5 (critical) or 1.25 (high risk).
pub open spec fn criticality_score(pof: int, cof: int, critical: bool, high_risk: bool) -> int {
    if critical {
        round_div(3 * (500 * pof + cof), 1_000_000)
    } else if high_risk {
        round_div(5 * (500 * pof + cof), 2_000_000)
    } else {
        round_div(500 * pof + cof, 500_000)
    }
}

/// `1 - min(2p, 0.95)`.
pub open spec fn degradation_factor(pof: int) -> int {
    round_div(500_000 - min_int(pof, 475_000), 50)
}

/// `p * consequence * safety_multiplier * max(degradation_factor, 0.5)`.
pub open spec fn post_action_risk(pof: int, cof: int, sm: int, df: int) -> int {
    round_div(pof * cof * sm * max_int(df, 5_000), 1_000_000_000_000_000_000)
}

/// `max(baseline_risk - post_action_risk, 0)`.
pub open spec fn risk_reduction(br: int, par: int) -> int {
    max_int(br - par, 0)
}

/// `min(cost / 100,000 * k, 10)` with `k` 2 (critical), 1.5 (high risk) or 1.
pub open spec fn implementation_complexity(cost: int, critical: bool, high_risk: bool) -> int {
    if critical {
        round_div(min_int(2 * cost, 100_000_000), 100_000)
    } else if high_risk {
        round_div(min_int(3 * cost, 200_000_000), 200_000)
    } else {
        round_div(min_int(cost, 100_000_000), 100_000)
    }
}

/// Number of monthly periods: `ceil(2 * implementation_complexity)`.
pub open spec fn discount_periods(ic: int) -> int {
    (2 * ic + 99) / 100
}

/// `1 / 1.006666667^ceil(2 * implementation_complexity)`.
pub open spec fn time_value_adjustment(ic: int) -> int {
    discount_factor(discount_periods(ic) as nat)
}

/// `cost * (1 + 0.05 * implementation_complexity) * time_value_adjustment`.
pub open spec fn adjusted_cost(cost: int, ic: int, tva: int) -> int {
    round_div(cost * (2_000 + ic) * tva, 20_000_000)
}

/// `risk_reduction / adjusted_cost`, or the sentinel when the cost is not positive.
pub open spec fn roi(rr: int, ac: int) -> int {
    if ac > 0 {
        round_div(rr * 10_000, ac)
    } else {
        ROI_SENTINEL as int
    }
}

/// `min(3.5 min(roi, 20) + 3 min(criticality, 10), 100)`.
pub open spec fn cost_effectiveness(roi: int, cs: int) -> int {
    round_div(min_int(35 * min_int(roi, 200_000) + 3_000 * min_int(cs, 1_000), 10_000_000), 1_000)
}

/// Weighted sum `0.4 rr / 10^6 + 0.35 min(roi, 10) / 10 + 0.25 criticality / 10`,
/// times 1.3 when critical.
pub open spec fn priority_weighted_sum(rr: int, roi: int, cs: int) -> int {
    2 * rr + 1_750 * min_int(roi, 100_000) + 125_000 * cs
}

pub open spec fn priority_score(rr: int, roi: int, cs: int, critical: bool) -> int {
    if critical {
        round_div(13 * priority_weighted_sum(rr, roi, cs), 500_000)
    } else {
        round_div(priority_weighted_sum(rr, roi, cs), 50_000)
    }
}

/// `12 * adjusted_cost / risk_reduction` months, or the sentinel when nothing is reduced.
pub open spec fn payback_period(ac: int, rr: int) -> int {
    if rr > 0 {
        round_div(ac * 120, rr)
    } else {
        PAYBACK_SENTINEL as int
    }
}


// ---- exec evaluation of each rule -------------------------------------------

fn eval_baseline_risk(cof: i128) -> (r: i128)
    requires
        0 <= cof <= 1_000_000_000_000_000,
    ensures
        r == baseline_risk(cof as int),
        0 <= r <= 2_000_000_000_000_000,
{
    if cof > HIGH_CONSEQUENCE_CENTS {
        proof {
            assert(0 <= cof * E_HALF_E16 <= 2_000_000_000_000_000 * 10_000_000_000_000_000int)
                by (nonlinear_arith)
                requires 0 <= cof <= 1_000_000_000_000_000;
            lemma_round_div_bounds(cof * E_HALF_E16, 10_000_000_000_000_000, 0, 2_000_000_000_000_000);
        }
        round_div_i128(cof * E_HALF_E16, 10_000_000_000_000_000)
    } else {
        cof
    }
}

fn eval_safety_multiplier(pof: i128, critical: bool, high_risk: bool) -> (r: i128)
    requires
        -10_000_000 <= pof <= 10_000_000,
    ensures
        r == safety_multiplier(pof as int, critical, high_risk),
        -50_000_000 <= r <= 350_000_000,
{
    if critical {
        150_000_000 + 20 * pof
    } else if high_risk {
        let excess: i128 = if pof - 100_000 > 0 { pof - 100_000 } else { 0 };
        125_000_000 + 15 * excess
    } else {
        100_000_000
    }
}

fn eval_criticality_score(pof: i128, cof: i128, critical: bool, high_risk: bool) -> (r: i128)
    requires
        -10_000_000 <= pof <= 10_000_000,
        0 <= cof <= 1_000_000_000_000_000,
    ensures
        r == criticality_score(pof as int, cof as int, critical, high_risk),
        -100_000_000_000 <= r <= 100_000_000_000,
{
    let base: i128 = 500 * pof + cof;
    if critical {
        proof { lemma_round_div_bounds(3 * base, 1_000_000, -100_000_000_000, 100_000_000_000); }
        round_div_i128(3 * base, 1_000_000)
    } else if high_risk {
        proof { lemma_round_div_bounds(5 * base, 2_000_000, -100_000_000_000, 100_000_000_000); }
        round_div_i128(5 * base, 2_000_000)
    } else {
        proof { lemma_round_div_bounds(base as int, 500_000, -100_000_000_000, 100_000_000_000); }
        round_div_i128(base, 500_000)
    }
}

fn eval_degradation_factor(pof: i128) -> (r: i128)
    requires
        -10_000_000 <= pof <= 10_000_000,
    ensures
        r == degradation_factor(pof as int),
        500 <= r <= 210_000,
{
    let capped: i128 = if pof <= 475_000 { pof } else { 475_000 };
    proof { lemma_round_div_bounds(500_000 - capped, 50, 500, 210_000); }
    round_div_i128(500_000 - capped, 50)
}

fn eval_post_action_risk(pof: i128, cof: i128, sm: i128, df: i128) -> (r: i128)
    requires
        -10_000_000 <= pof <= 10_000_000,
        0 <= cof <= 1_000_000_000_000_000,
        -50_000_000 <= sm <= 350_000_000,
        500 <= df <= 210_000,
    ensures
        r == post_action_risk(pof as int, cof as int, sm as int, df as int),
        -1_000_000_000_000_000_000 <= r <= 1_000_000_000_000_000_000,
{
    let d: i128 = if df >= 5_000 { df } else { 5_000 };
    proof {
        let pc = pof * cof;
        assert(-10_000_000_000_000_000_000_000 <= pc <= 10_000_000_000_000_000_000_000int)
            by (nonlinear_arith)
            requires pc == pof * cof, -10_000_000 <= pof <= 10_000_000, 0 <= cof <= 1_000_000_000_000_000;
        let pcs = pc * sm;
        assert(-3_500_000_000_000_000_000_000_000_000_000 <= pcs <= 3_500_000_000_000_000_000_000_000_000_000int)
            by (nonlinear_arith)
            requires pcs == pc * sm, -10_000_000_000_000_000_000_000 <= pc <= 10_000_000_000_000_000_000_000int,
                -50_000_000 <= sm <= 350_000_000;
        let all = pcs * d;
        assert(-1_000_000_000_000_000_000_000_000_000_000_000_000 <= all <= 1_000_000_000_000_000_000_000_000_000_000_000_000int)
            by (nonlinear_arith)
            requires all == pcs * d, -3_500_000_000_000_000_000_000_000_000_000 <= pcs <= 3_500_000_000_000_000_000_000_000_000_000int,
                5_000 <= d <= 210_000;
        lemma_round_div_bounds(all, 1_000_000_000_000_000_000, -1_000_000_000_000_000_000, 1_000_000_000_000_000_000);
    }
    round_div_i128(pof * cof * sm * d, 1_000_000_000_000_000_000)
}

fn eval_risk_reduction(br: i128, par: i128) -> (r: i128)
    requires
        0 <= br <= 2_000_000_000_000_000,
        -1_000_000_000_000_000_000 <= par <= 1_000_000_000_000_000_000,
    ensures
        r == risk_reduction(br as int, par as int),
        0 <= r <= 2_000_000_000_000_000_000,
{
    if br - par >= 0 {
        br - par
    } else {
        0
    }
}

fn eval_implementation_complexity(cost: i128, critical: bool, high_risk: bool) -> (r: i128)
    requires
        0 <= cost <= 1_000_000_000_000_000,
    ensures
        r == implementation_complexity(cost as int, critical, high_risk),
        0 <= r <= 1_000,
{
    if critical {
        let x: i128 = if 2 * cost <= 100_000_000 { 2 * cost } else { 100_000_000 };
        proof { lemma_round_div_bounds(x as int, 100_000, 0, 1_000); }
        round_div_i128(x, 100_000)
    } else if high_risk {
        let x: i128 = if 3 * cost <= 200_000_000 { 3 * cost } else { 200_000_000 };
        proof { lemma_round_div_bounds(x as int, 200_000, 0, 1_000); }
        round_div_i128(x, 200_000)
    } else {
        let x: i128 = if cost <= 100_000_000 { cost } else { 100_000_000 };
        proof { lemma_round_div_bounds(x as int, 100_000, 0, 1_000); }
        round_div_i128(x, 100_000)
    }
}

fn eval_time_value_adjustment(ic: i128) -> (r: i128)
    requires
        0 <= ic <= 1_000,
    ensures
        r == time_value_adjustment(ic as int),
        8_756 <= r <= 10_000,
{
    let n: i128 = (2 * ic + 99) / 100;
    proof {
        lemma_discount_table();
        assert(0 <= n <= 20);
    }
    discount_for_periods(n)
}

fn discount_for_periods(n: i128) -> (r: i128)
    requires
        0 <= n <= 20,
    ensures
        r == discount_factor(n as nat),
        8_756 <= r <= 10_000,
{
    proof { lemma_discount_table(); }
    match n {
        0 => 10000,
        1 => 9934,
        2 => 9868,
        3 => 9803,
        4 => 9738,
        5 => 9673,
        6 => 9609,
        7 => 9546,
        8 => 9482,
        9 => 9420,
        10 => 9357,
        11 => 9295,
        12 => 9234,
        13 => 9172,
        14 => 9112,
        15 => 9051,
        16 => 8991,
        17 => 8932,
        18 => 8873,
        19 => 8814,
        _ => 8756,
    }
}

fn eval_adjusted_cost(cost: i128, ic: i128, tva: i128) -> (r: i128)
    requires
        0 <= cost <= 1_000_000_000_000_000,
        0 <= ic <= 1_000,
        8_756 <= tva <= 10_000,
    ensures
        r == adjusted_cost(cost as int, ic as int, tva as int),
        0 <= r <= 1_500_000_000_000_000,
{
    proof {
        let x = cost * (2_000 + ic);
        assert(0 <= x <= 3_000_000_000_000_000_000int) by (nonlinear_arith)
            requires x == cost * (2_000 + ic), 0 <= cost <= 1_000_000_000_000_000, 0 <= ic <= 1_000;
        assert(0 <= x * tva <= 30_000_000_000_000_000_000_000int) by (nonlinear_arith)
            requires 0 <= x <= 3_000_000_000_000_000_000int, 8_756 <= tva <= 10_000;
        lemma_round_div_bounds(x * tva, 20_000_000, 0, 1_500_000_000_000_000);
    }
    round_div_i128(cost * (2_000 + ic) * tva, 20_000_000)
}

fn eval_roi(rr: i128, ac: i128) -> (r: i128)
    requires
        0 <= rr <= 2_000_000_000_000_000_000,
        0 <= ac <= 1_500_000_000_000_000,
    ensures
        r == roi(rr as int, ac as int),
        0 <= r <= 20_000_000_000_000_000_000_000,
{
    if ac > 0 {
        proof {
            assert(rr * 10_000 <= 20_000_000_000_000_000_000_000 * ac) by (nonlinear_arith)
                requires 0 <= rr <= 2_000_000_000_000_000_000, ac >= 1;
            lemma_round_div_bounds(rr * 10_000, ac as int, 0, 20_000_000_000_000_000_000_000);
        }
        round_div_i128(rr * 10_000, ac)
    } else {
        ROI_SENTINEL
    }
}

fn eval_cost_effectiveness(roi: i128, cs: i128) -> (r: i128)
    requires
        0 <= roi <= 20_000_000_000_000_000_000_000,
        -100_000_000_000 <= cs <= 100_000_000_000,
    ensures
        r == cost_effectiveness(roi as int, cs as int),
        -300_000_000_000 <= r <= 10_000,
{
    let capped_roi: i128 = if roi <= 200_000 { roi } else { 200_000 };
    let capped_cs: i128 = if cs <= 1_000 { cs } else { 1_000 };
    let sum: i128 = 35 * capped_roi + 3_000 * capped_cs;
    let total: i128 = if sum <= 10_000_000 { sum } else { 10_000_000 };
    proof { lemma_round_div_bounds(total as int, 1_000, -300_000_000_000, 10_000); }
    round_div_i128(total, 1_000)
}

fn eval_priority_score(rr: i128, roi: i128, cs: i128, critical: bool) -> (r: i128)
    requires
        0 <= rr <= 2_000_000_000_000_000_000,
        0 <= roi <= 20_000_000_000_000_000_000_000,
        -100_000_000_000 <= cs <= 100_000_000_000,
    ensures
        r == priority_score(rr as int, roi as int, cs as int, critical),
        -1_000_000_000_000_000 <= r <= 1_000_000_000_000_000,
{
    let capped_roi: i128 = if roi <= 100_000 { roi } else { 100_000 };
    let w: i128 = 2 * rr + 1_750 * capped_roi + 125_000 * cs;
    if critical {
        proof { lemma_round_div_bounds(13 * w, 500_000, -1_000_000_000_000_000, 1_000_000_000_000_000); }
        round_div_i128(13 * w, 500_000)
    } else {
        proof { lemma_round_div_bounds(w as int, 50_000, -1_000_000_000_000_000, 1_000_000_000_000_000); }
        round_div_i128(w, 50_000)
    }
}

fn eval_payback_period(ac: i128, rr: i128) -> (r: i128)
    requires
        0 <= ac <= 1_500_000_000_000_000,
        0 <= rr <= 2_000_000_000_000_000_000,
    ensures
        r == payback_period(ac as int, rr as int),
        0 <= r <= 180_000_000_000_000_000,
{
    if rr > 0 {
        proof {
            assert(ac * 120 <= 180_000_000_000_000_000 * rr) by (nonlinear_arith)
                requires 0 <= ac <= 1_500_000_000_000_000, rr >= 1;
            lemma_round_div_bounds(ac * 120, rr as int, 0, 180_000_000_000_000_000);
        }
        round_div_i128(ac * 120, rr)
    } else {
        PAYBACK_SENTINEL
    }
}


/// Largest amount in cents (ten trillion dollars) that the `i128` evaluation covers.
pub const MAX_AMOUNT_CENTS: u64 = 1_000_000_000_000_000;

/// Largest probability magnitude in millionths (ten) that the evaluation covers.
pub const MAX_POF_PPM: i64 = 10_000_000;

/// Raw attributes within the range that the fixed-point evaluation covers.
pub open spec fn attributes_in_range(a: Asset) -> bool {
    &&& a.cost_cents <= MAX_AMOUNT_CENTS
    &&& a.cof_total_cents <= MAX_AMOUNT_CENTS
    &&& -MAX_POF_PPM <= a.pof_ppm <= MAX_POF_PPM
}

// ---- each node in closed form over an alternative's raw attributes ----------

pub open spec fn baseline_risk_of(a: Asset) -> int {
    baseline_risk(a.cof_total_cents as int)
}

pub open spec fn safety_multiplier_of(a: Asset) -> int {
    safety_multiplier(
        a.pof_ppm as int,
        a.safety_risk_level.spec_is_critical(),
        a.safety_risk_level.spec_is_high_risk(),
    )
}

pub open spec fn criticality_score_of(a: Asset) -> int {
    criticality_score(
        a.pof_ppm as int,
        a.cof_total_cents as int,
        a.safety_risk_level.spec_is_critical(),
        a.safety_risk_level.spec_is_high_risk(),
    )
}

pub open spec fn degradation_factor_of(a: Asset) -> int {
    degradation_factor(a.pof_ppm as int)
}

pub open spec fn post_action_risk_of(a: Asset) -> int {
    post_action_risk(
        a.pof_ppm as int,
        a.cof_total_cents as int,
        safety_multiplier_of(a),
        degradation_factor_of(a),
    )
}

pub open spec fn risk_reduction_of(a: Asset) -> int {
    risk_reduction(baseline_risk_of(a), post_action_risk_of(a))
}

pub open spec fn implementation_complexity_of(a: Asset) -> int {
    implementation_complexity(
        a.cost_cents as int,
        a.safety_risk_level.spec_is_critical(),
        a.safety_risk_level.spec_is_high_risk(),
    )
}

pub open spec fn time_value_adjustment_of(a: Asset) -> int {
    time_value_adjustment(implementation_complexity_of(a))
}

pub open spec fn adjusted_cost_of(a: Asset) -> int {
    adjusted_cost(a.cost_cents as int, implementation_complexity_of(a), time_value_adjustment_of(a))
}

pub open spec fn roi_of(a: Asset) -> int {
    roi(risk_reduction_of(a), adjusted_cost_of(a))
}

pub open spec fn cost_effectiveness_of(a: Asset) -> int {
    cost_effectiveness(roi_of(a), criticality_score_of(a))
}

pub open spec fn priority_score_of(a: Asset) -> int {
    priority_score(
        risk_reduction_of(a),
        roi_of(a),
        criticality_score_of(a),
        a.safety_risk_level.spec_is_critical(),
    )
}

pub open spec fn payback_period_of(a: Asset) -> int {
    payback_period(adjusted_cost_of(a), risk_reduction_of(a))
}

/// The thirteen nodes of the metric graph, in a valid topological order.
#[derive(Clone, Copy, Debug, PartialEq, Eq, Structural)]
pub enum MetricNode {
    BaselineRisk,
    SafetyMultiplier,
    CriticalityScore,
    DegradationFactor,
    PostActionRisk,
    RiskReduction,
    ImplementationComplexity,
    TimeValueAdjustment,
    AdjustedCost,
    Roi,
    CostEffectiveness,
    PriorityScore,
    PaybackPeriod,
}

/// Number of nodes in the metric graph.
pub const NODE_COUNT: usize = 13;

impl MetricNode {
    pub open spec fn spec_index(self) -> int {
        match self {
            MetricNode::BaselineRisk => 0,
            MetricNode::SafetyMultiplier => 1,
            MetricNode::CriticalityScore => 2,
            MetricNode::DegradationFactor => 3,
            MetricNode::PostActionRisk => 4,
            MetricNode::RiskReduction => 5,
            MetricNode::ImplementationComplexity => 6,
            MetricNode::TimeValueAdjustment => 7,
            MetricNode::AdjustedCost => 8,
            MetricNode::Roi => 9,
            MetricNode::CostEffectiveness => 10,
            MetricNode::PriorityScore => 11,
            MetricNode::PaybackPeriod => 12,
        }
    }

    /// Position of the node in the declared topological order.
    pub fn index(&self) -> (r: usize)
        ensures
            r == self.spec_index(),
            r < NODE_COUNT,
    {
        match self {
            MetricNode::BaselineRisk => 0,
            MetricNode::SafetyMultiplier => 1,
            MetricNode::CriticalityScore => 2,
            MetricNode::DegradationFactor => 3,
            MetricNode::PostActionRisk => 4,
            MetricNode::RiskReduction => 5,
            MetricNode::ImplementationComplexity => 6,
            MetricNode::TimeValueAdjustment => 7,
            MetricNode::AdjustedCost => 8,
            MetricNode::Roi => 9,
            MetricNode::CostEffectiveness => 10,
            MetricNode::PriorityScore => 11,
            MetricNode::PaybackPeriod => 12,
        }
    }

    pub open spec fn spec_name(self) -> Seq<char> {
        match self {
            MetricNode::BaselineRisk => "baseline_risk"@,
            MetricNode::SafetyMultiplier => "safety_multiplier"@,
            MetricNode::CriticalityScore => "criticality_score"@,
            MetricNode::DegradationFactor => "degradation_factor"@,
            MetricNode::PostActionRisk => "post_action_risk"@,
            MetricNode::RiskReduction => "risk_reduction"@,
            MetricNode::ImplementationComplexity => "implementation_complexity"@,
            MetricNode::TimeValueAdjustment => "time_value_adjustment"@,
            MetricNode::AdjustedCost => "adjusted_cost"@,
            MetricNode::Roi => "roi"@,
            MetricNode::CostEffectiveness => "cost_effectiveness"@,
            MetricNode::PriorityScore => "priority_score"@,
            MetricNode::PaybackPeriod => "payback_period"@,
        }
    }

    /// The node's name, as outputs are looked up.
    pub fn name(&self) -> (r: &'static str)
        ensures
            r@ == self.spec_name(),
    {
        match self {
            MetricNode::BaselineRisk => "baseline_risk",
            MetricNode::SafetyMultiplier => "safety_multiplier",
            MetricNode::CriticalityScore => "criticality_score",
            MetricNode::DegradationFactor => "degradation_factor",
            MetricNode::PostActionRisk => "post_action_risk",
            MetricNode::RiskReduction => "risk_reduction",
            MetricNode::ImplementationComplexity => "implementation_complexity",
            MetricNode::TimeValueAdjustment => "time_value_adjustment",
            MetricNode::AdjustedCost => "adjusted_cost",
            MetricNode::Roi => "roi",
            MetricNode::CostEffectiveness => "cost_effectiveness",
            MetricNode::PriorityScore => "priority_score",
            MetricNode::PaybackPeriod => "payback_period",
        }
    }

    /// Nodes whose outputs this node reads.
    pub open spec fn dependencies(self) -> Seq<MetricNode> {
        match self {
            MetricNode::BaselineRisk => seq![],
            MetricNode::SafetyMultiplier => seq![],
            MetricNode::CriticalityScore => seq![],
            MetricNode::DegradationFactor => seq![],
            MetricNode::PostActionRisk => seq![MetricNode::SafetyMultiplier, MetricNode::DegradationFactor],
            MetricNode::RiskReduction => seq![MetricNode::BaselineRisk, MetricNode::PostActionRisk],
            MetricNode::ImplementationComplexity => seq![],
            MetricNode::TimeValueAdjustment => seq![MetricNode::ImplementationComplexity],
            MetricNode::AdjustedCost => seq![MetricNode::ImplementationComplexity, MetricNode::TimeValueAdjustment],
            MetricNode::Roi => seq![MetricNode::RiskReduction, MetricNode::AdjustedCost],
            MetricNode::CostEffectiveness => seq![MetricNode::Roi, MetricNode::CriticalityScore],
            MetricNode::PriorityScore => seq![MetricNode::RiskReduction, MetricNode::Roi, MetricNode::CriticalityScore],
            MetricNode::PaybackPeriod => seq![MetricNode::AdjustedCost, MetricNode::RiskReduction],
        }
    }

    /// The node's value for an alternative, in closed form.
    pub open spec fn value_for(self, a: Asset) -> int {
        match self {
            MetricNode::BaselineRisk => baseline_risk_of(a),
            MetricNode::SafetyMultiplier => safety_multiplier_of(a),
            MetricNode::CriticalityScore => criticality_score_of(a),
            MetricNode::DegradationFactor => degradation_factor_of(a),
            MetricNode::PostActionRisk => post_action_risk_of(a),
            MetricNode::RiskReduction => risk_reduction_of(a),
            MetricNode::ImplementationComplexity => implementation_complexity_of(a),
            MetricNode::TimeValueAdjustment => time_value_adjustment_of(a),
            MetricNode::AdjustedCost => adjusted_cost_of(a),
            MetricNode::Roi => roi_of(a),
            MetricNode::CostEffectiveness => cost_effectiveness_of(a),
            MetricNode::PriorityScore => priority_score_of(a),
            MetricNode::PaybackPeriod => payback_period_of(a),
        }
    }

    /// Range of the node's value over attributes in range.
    pub open spec fn value_in_range(self, v: int) -> bool {
        match self {
            MetricNode::BaselineRisk => 0 <= v <= 2_000_000_000_000_000,
            MetricNode::SafetyMultiplier => -50_000_000 <= v <= 350_000_000,
            MetricNode::CriticalityScore => -100_000_000_000 <= v <= 100_000_000_000,
            MetricNode::DegradationFactor => 500 <= v <= 210_000,
            MetricNode::PostActionRisk => -1_000_000_000_000_000_000 <= v <= 1_000_000_000_000_000_000,
            MetricNode::RiskReduction => 0 <= v <= 2_000_000_000_000_000_000,
            MetricNode::ImplementationComplexity => 0 <= v <= 1_000,
            MetricNode::TimeValueAdjustment => 8_756 <= v <= 10_000,
            MetricNode::AdjustedCost => 0 <= v <= 1_500_000_000_000_000,
            MetricNode::Roi => 0 <= v <= 20_000_000_000_000_000_000_000,
            MetricNode::CostEffectiveness => -300_000_000_000 <= v <= 10_000,
            MetricNode::PriorityScore => -1_000_000_000_000_000 <= v <= 1_000_000_000_000_000,
            MetricNode::PaybackPeriod => 0 <= v <= 180_000_000_000_000_000,
        }
    }
}

/// Every output present in `env` is the node's closed-form value.
pub open spec fn env_consistent(env: Seq<Option<i128>>, a: Asset) -> bool {
    &&& env.len() == NODE_COUNT
    &&& forall|k: MetricNode| #[trigger] env[k.spec_index()] matches Some(v) ==> v == k.value_for(a)
        && k.value_in_range(v as int)
}

/// All inputs of `node` are present in `env`.
pub open spec fn dependencies_available(node: MetricNode, env: Seq<Option<i128>>) -> bool {
    forall|i: int| 0 <= i < node.dependencies().len() ==> (#[trigger] env[node.dependencies()[i].spec_index()]) is Some
}

/// Evaluates one node from the outputs already in `env`; `None` when an input is missing.
pub fn eval_node(node: MetricNode, a: &Asset, env: &Vec<Option<i128>>) -> (r: Option<i128>)
    requires
        attributes_in_range(*a),
        env_consistent(env@, *a),
    ensures
        r is None <==> !dependencies_available(node, env@),
        r matches Some(v) ==> v == node.value_for(*a) && node.value_in_range(v as int),
{
    let pof: i128 = a.pof_ppm as i128;
    let cof: i128 = a.cof_total_cents as i128;
    let cost: i128 = a.cost_cents as i128;
    let critical: bool = a.is_critical();
    let high_risk: bool = a.is_high_risk();
    proof {
        assert(env@[MetricNode::BaselineRisk.spec_index()] == env@[0]);
        assert(env@[MetricNode::SafetyMultiplier.spec_index()] == env@[1]);
        assert(env@[MetricNode::CriticalityScore.spec_index()] == env@[2]);
        assert(env@[MetricNode::DegradationFactor.spec_index()] == env@[3]);
        assert(env@[MetricNode::PostActionRisk.spec_index()] == env@[4]);
        assert(env@[MetricNode::RiskReduction.spec_index()] == env@[5]);
        assert(env@[MetricNode::ImplementationComplexity.spec_index()] == env@[6]);
        assert(env@[MetricNode::TimeValueAdjustment.spec_index()] == env@[7]);
        assert(env@[MetricNode::AdjustedCost.spec_index()] == env@[8]);
        assert(env@[MetricNode::Roi.spec_index()] == env@[9]);
        assert(env@[MetricNode::CostEffectiveness.spec_index()] == env@[10]);
        assert(env@[MetricNode::PriorityScore.spec_index()] == env@[11]);
        assert(env@[MetricNode::PaybackPeriod.spec_index()] == env@[12]);
    }
    match node {
        MetricNode::BaselineRisk => Some(eval_baseline_risk(cof)),
        MetricNode::SafetyMultiplier => Some(eval_safety_multiplier(pof, critical, high_risk)),
        MetricNode::CriticalityScore => Some(eval_criticality_score(pof, cof, critical, high_risk)),
        MetricNode::DegradationFactor => Some(eval_degradation_factor(pof)),
        MetricNode::PostActionRisk => {
            match (env[1], env[3]) {
                (Some(sm), Some(df)) => Some(eval_post_action_risk(pof, cof, sm, df)),
                _ => None,
            }
        }
        MetricNode::RiskReduction => {
            match (env[0], env[4]) {
                (Some(br), Some(par)) => Some(eval_risk_reduction(br, par)),
                _ => None,
            }
        }
        MetricNode::ImplementationComplexity => Some(eval_implementation_complexity(cost, critical, high_risk)),
        MetricNode::TimeValueAdjustment => {
            match env[6] {
                Some(ic) => Some(eval_time_value_adjustment(ic)),
                _ => None,
            }
        }
        MetricNode::AdjustedCost => {
            match (env[6], env[7]) {
                (Some(ic), Some(tva)) => Some(eval_adjusted_cost(cost, ic, tva)),
                _ => None,
            }
        }
        MetricNode::Roi => {
            match (env[5], env[8]) {
                (Some(rr), Some(ac)) => Some(eval_roi(rr, ac)),
                _ => None,
            }
        }
        MetricNode::CostEffectiveness => {
            match (env[9], env[2]) {
                (Some(roi), Some(cs)) => Some(eval_cost_effectiveness(roi, cs)),
                _ => None,
            }
        }
        MetricNode::PriorityScore => {
            match (env[5], env[9], env[2]) {
                (Some(rr), Some(roi), Some(cs)) => Some(eval_priority_score(rr, roi, cs, critical)),
                _ => None,
            }
        }
        MetricNode::PaybackPeriod => {
            match (env[8], env[5]) {
                (Some(ac), Some(rr)) => Some(eval_payback_period(ac, rr)),
                _ => None,
            }
        }
    }
}


// ---- properties of the metric graph -----------------------------------------

/// Risk reduction is the baseline risk less the post-action risk, floored at zero.
pub proof fn lemma_risk_reduction_is_floored_difference(a: Asset)
    ensures
        risk_reduction_of(a) == max_int(baseline_risk_of(a) - post_action_risk_of(a), 0),
        risk_reduction_of(a) >= 0,
{
}

proof fn lemma_half_up_shift(a: int, b: int)
    requires
        a >= 0,
        b > 0,
    ensures
        round_div(a + b, b) == round_div(a, b) + 1,
{
    lemma_fundamental_div_mod(a, b);
    let q = a / b;
    let r = a % b;
    assert(0 <= r < b);
    assert(a + b == (q + 1) * b + r) by (nonlinear_arith)
        requires a == b * q + r;
    lemma_fundamental_div_mod_converse(a + b, b, q + 1, r);
}

/// A critical classification gives a strictly higher post-action risk than a
/// classification that is neither high risk nor critical, when the probability
/// and consequence are positive and their product reaches `4,000,000`
/// (millionths times cents), so that the gap survives rounding to the cent.
pub proof fn lemma_critical_raises_post_action_risk(plain: Asset, critical: Asset)
    requires
        attributes_in_range(plain),
        !plain.safety_risk_level.spec_is_high_risk(),
        critical == (Asset { safety_risk_level: SafetyRiskLevel::Critical, ..plain }),
        plain.pof_ppm > 0,
        plain.pof_ppm * plain.cof_total_cents >= 4_000_000,
    ensures
        post_action_risk_of(critical) > post_action_risk_of(plain),
{
    let p = plain.pof_ppm as int;
    let cof = plain.cof_total_cents as int;
    let d = max_int(degradation_factor(p), 5_000);
    let pc = p * cof;
    let low = pc * 100_000_000 * d;
    let high = pc * (150_000_000 + 20 * p) * d;
    assert(safety_multiplier_of(plain) == 100_000_000);
    assert(safety_multiplier_of(critical) == 150_000_000 + 20 * p);
    assert(d >= 5_000);
    assert(pc >= 4_000_000);
    assert(low >= 0) by (nonlinear_arith) requires pc >= 0, d >= 0, low == pc * 100_000_000 * d;
    assert(high - low >= 1_000_000_000_000_000_000) by (nonlinear_arith)
        requires pc >= 4_000_000, p > 0, d >= 5_000,
            low == pc * 100_000_000 * d, high == pc * (150_000_000 + 20 * p) * d;
    assert(p * cof * safety_multiplier_of(plain) * d == low) by (nonlinear_arith)
        requires pc == p * cof, low == pc * 100_000_000 * d, safety_multiplier_of(plain) == 100_000_000;
    assert(p * cof * safety_multiplier_of(critical) * d == high) by (nonlinear_arith)
        requires pc == p * cof, high == pc * (150_000_000 + 20 * p) * d,
            safety_multiplier_of(critical) == 150_000_000 + 20 * p;
    lemma_half_up_shift(low, 1_000_000_000_000_000_000);
    lemma_round_div_monotone(low + 1_000_000_000_000_000_000, high, 1_000_000_000_000_000_000);
}

/// Lowering the probability of failure, all else fixed, never raises the
/// post-action risk nor lowers the risk reduction, provided both
/// probabilities are non-negative and give the same effective degradation
/// factor `max(degradation_factor, 0.5)`: this holds in particular for all
/// probabilities of at least `0.25`, where that factor is `0.5`. (Across a
/// step of the rounded degradation factor the risk can move the other way.)
pub proof fn lemma_lower_probability_lowers_risk(lower: Asset, higher: Asset)
    requires
        attributes_in_range(higher),
        lower == (Asset { pof_ppm: lower.pof_ppm, ..higher }),
        0 <= lower.pof_ppm <= higher.pof_ppm,
        max_int(degradation_factor(lower.pof_ppm as int), 5_000) == max_int(
            degradation_factor(higher.pof_ppm as int),
            5_000,
        ),
    ensures
        post_action_risk_of(lower) <= post_action_risk_of(higher),
        risk_reduction_of(lower) >= risk_reduction_of(higher),
{
    let p_low = lower.pof_ppm as int;
    let p_high = higher.pof_ppm as int;
    let cof = higher.cof_total_cents as int;
    let d = max_int(degradation_factor(p_high), 5_000);
    let s1 = safety_multiplier_of(lower);
    let s2 = safety_multiplier_of(higher);
    assert(0 <= s1 <= s2);
    assert(p_low * cof * s1 * d <= p_high * cof * s2 * d) by (nonlinear_arith)
        requires 0 <= p_low <= p_high, cof >= 0, 0 <= s1 <= s2, d >= 0;
    lemma_round_div_monotone(p_low * cof * s1 * d, p_high * cof * s2 * d, 1_000_000_000_000_000_000);
}

/// At probabilities of `0.25` and above the effective degradation factor is `0.5`.
pub proof fn lemma_degradation_floor(p: int)
    requires
        p >= 250_000,
    ensures
        max_int(degradation_factor(p), 5_000) == 5_000,
{
    lemma_round_div_bounds(500_000 - min_int(p, 475_000), 50, 0, 5_000);
}

} // verus!
