//! Configuration values consumed by the scoring engine.
//!
//! Weights and the point-to-hours ratio are held in thousandths, so a weight
//! of 1000 means a factor of one. Loading a configuration file is the
//! caller's concern; the library only consumes the values.

use vstd::prelude::*;

verus! {

/// Scoring weights, in thousandths. All weights are non-negative by type.
#[derive(Debug, Clone, Copy, PartialEq, Eq, Structural)]
pub struct Weights {
    pub urgency: u32,
    pub blocking: u32,
    pub staleness: u32,
    pub quick_win: u32,
}

impl Default for Weights {
    /// The stock weighting: urgency 1, blocking 0.8, staleness 0.5,
    /// quick-win 0.3.
    fn default() -> (r: Self)
        ensures
            r == (Weights { urgency: 1000, blocking: 800, staleness: 500, quick_win: 300 }),
    {
        Weights { urgency: 1000, blocking: 800, staleness: 500, quick_win: 300 }
    }
}

/// Priority section of the configuration.
#[derive(Debug, Clone, Copy, PartialEq, Eq, Structural)]
pub struct PriorityConfig {
    pub weights: Weights,
}

impl Default for PriorityConfig {
    fn default() -> (r: Self)
        ensures
            r.weights == (Weights { urgency: 1000, blocking: 800, staleness: 500, quick_win: 300 }),
    {
        PriorityConfig { weights: Weights::default() }
    }
}

/// Estimate section: how many thousandths of an hour one point is worth.
#[derive(Debug, Clone, Copy, PartialEq, Eq, Structural)]
pub struct EstimateConfig {
    pub point_to_hours: u32,
}

impl Default for EstimateConfig {
    fn default() -> (r: Self)
        ensures
            r.point_to_hours == 1000,
    {
        EstimateConfig { point_to_hours: 1000 }
    }
}

/// Display section.
#[derive(Debug, Clone)]
pub struct DisplayConfig {
    pub color: bool,
    pub date_format: String,
}

impl Default for DisplayConfig {
    fn default() -> (r: Self)
        ensures
            r.color,
            r.date_format@ == "%Y-%m-%d"@,
    {
        DisplayConfig { color: true, date_format: String::from_str("%Y-%m-%d") }
    }
}

/// Data section: where the records live.
#[derive(Debug, Clone)]
pub struct DataConfig {
    pub directory: String,
}

impl Default for DataConfig {
    fn default() -> (r: Self)
        ensures
            r.directory@ == "~/.local/share/taskctl"@,
    {
        DataConfig { directory: String::from_str("~/.local/share/taskctl") }
    }
}

/// The whole configuration.
#[derive(Debug, Clone)]
pub struct Config {
    pub priority: PriorityConfig,
    pub estimate: EstimateConfig,
    pub display: DisplayConfig,
    pub data: DataConfig,
}

impl Default for Config {
    fn default() -> (r: Self)
        ensures
            r.priority.weights == (Weights {
                urgency: 1000,
                blocking: 800,
                staleness: 500,
                quick_win: 300,
            }),
            r.estimate.point_to_hours == 1000,
            r.display.color,
    {
        Config {
            priority: PriorityConfig::default(),
            estimate: EstimateConfig::default(),
            display: DisplayConfig::default(),
            data: DataConfig::default(),
        }
    }
}

} // verus!
