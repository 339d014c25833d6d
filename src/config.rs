//! The configuration of one simulation and its validation.
use vstd::prelude::*;

verus! {

/// Probability one, in units of `2^-64`.
pub const ONE: i128 = 0x1_0000_0000_0000_0000;

/// Largest magnitude accepted for the base failure probability.
pub const P0_BOUND: i128 = 0x2000_0000_0000_0000_0000_0000_0000_0000;

/// The parameters of a simulation.
///
/// `p0` and `beta` are fixed-point: `p0 / 2^64` is the failure probability of
/// a machine on its first tick of operation, and `beta / 2^64` is added for
/// every tick it has been operating since.
#[derive(Clone, Copy, Debug, PartialEq, Eq, Structural)]
pub struct SimulationConfigs {
    /// Machines that must be operating for the system to be up.
    pub n: i64,
    /// Base failure probability per tick.
    pub p0: i128,
    /// Spare machines.
    pub s0: i64,
    /// Ticks a failed machine spends under repair.
    pub tr: i64,
    /// Growth of the failure probability per tick of operation.
    pub beta: i128,
    /// Seed of the trial's generator.
    pub seed: u64,
    /// Cap on the ticks of a trial; zero or negative means no cap.
    pub max_cycles: i64,
}

/// Why a configuration was refused.
#[derive(Clone, Copy, Debug, PartialEq, Eq, Structural)]
pub enum ConfigError {
    NegativeTrialCount,
    TooManyTrials,
    NegativeMachineCount,
    NegativeSpareCount,
    NegativeRepairTime,
    RepairTimeTooLong,
    PoolTooLarge,
    ProbabilityOutOfRange,
}

impl SimulationConfigs {
    /// Number of machines in the pool.
    pub open spec fn pool_size(self) -> int {
        self.n + self.s0
    }

    /// The configuration describes a pool that can be simulated.
    pub open spec fn valid(self) -> bool {
        &&& 0 <= self.n
        &&& 0 <= self.s0
        &&& 0 <= self.tr < i64::MAX
        &&& self.pool_size() <= usize::MAX
        &&& -P0_BOUND <= self.p0 <= P0_BOUND
    }

    /// The same configuration with another seed.
    pub fn with_seed(self, seed: u64) -> (r: SimulationConfigs)
        ensures
            r == (SimulationConfigs { seed, ..self }),
    {
        SimulationConfigs { seed, ..self }
    }

    /// The last tick a trial may reach: `max_cycles` when it caps the trial,
    /// else the last tick at which a repair end still fits in an `i64`.
    pub open spec fn tick_limit(self) -> int {
        if 0 < self.max_cycles && self.max_cycles <= i64::MAX - self.tr {
            self.max_cycles as int
        } else {
            i64::MAX - self.tr
        }
    }

    /// The tick limit of a trial of this configuration.
    pub fn limit(&self) -> (r: i64)
        requires
            self.valid(),
        ensures
            r == self.tick_limit(),
            1 <= r,
    {
        let top = i64::MAX - self.tr;
        if 0 < self.max_cycles && self.max_cycles <= top {
            self.max_cycles
        } else {
            top
        }
    }
}

/// The first rule that `trial_count` and `cfg` break, if any.
pub open spec fn config_error(trial_count: int, cfg: SimulationConfigs) -> Option<ConfigError> {
    if trial_count < 0 {
        Some(ConfigError::NegativeTrialCount)
    } else if trial_count > usize::MAX {
        Some(ConfigError::TooManyTrials)
    } else if cfg.n < 0 {
        Some(ConfigError::NegativeMachineCount)
    } else if cfg.s0 < 0 {
        Some(ConfigError::NegativeSpareCount)
    } else if cfg.tr < 0 {
        Some(ConfigError::NegativeRepairTime)
    } else if cfg.tr == i64::MAX {
        Some(ConfigError::RepairTimeTooLong)
    } else if cfg.pool_size() > usize::MAX {
        Some(ConfigError::PoolTooLarge)
    } else if !(-P0_BOUND <= cfg.p0 <= P0_BOUND) {
        Some(ConfigError::ProbabilityOutOfRange)
    } else {
        None
    }
}

/// Checks a batch request before any trial starts.
pub fn validate(trial_count: i64, cfg: &SimulationConfigs) -> (r: Result<(), ConfigError>)
    ensures
        r is Ok <==> config_error(trial_count as int, *cfg) is None,
        r is Err ==> config_error(trial_count as int, *cfg) == Some(r->Err_0),
        r is Ok ==> cfg.valid() && trial_count <= usize::MAX,
{
    if trial_count < 0 {
        return Err(ConfigError::NegativeTrialCount);
    }
    if trial_count as u64 > usize::MAX as u64 {
        return Err(ConfigError::TooManyTrials);
    }
    if cfg.n < 0 {
        return Err(ConfigError::NegativeMachineCount);
    }
    if cfg.s0 < 0 {
        return Err(ConfigError::NegativeSpareCount);
    }
    if cfg.tr < 0 {
        return Err(ConfigError::NegativeRepairTime);
    }
    if cfg.tr == i64::MAX {
        return Err(ConfigError::RepairTimeTooLong);
    }
    if (cfg.n as u64) + (cfg.s0 as u64) > usize::MAX as u64 {
        return Err(ConfigError::PoolTooLarge);
    }
    if cfg.p0 < -P0_BOUND || cfg.p0 > P0_BOUND {
        return Err(ConfigError::ProbabilityOutOfRange);
    }
    Ok(())
}

} // verus!
