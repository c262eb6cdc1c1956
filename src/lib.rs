//! Capital allocation: a fixed-point metric graph evaluated per investment
//! alternative, and an exact budget-constrained portfolio selector that picks
//! at most one alternative per asset.

pub mod fixed;
pub mod domain;
pub mod metrics;
pub mod formulas;
pub mod calculator;
pub mod selection;
pub mod optimizer;
pub mod sources;
pub mod app_state;
mod clock;

