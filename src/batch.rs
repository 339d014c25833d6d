//! Many independent trials from one base seed, and their aggregate.
use vstd::prelude::*;
use crate::config::{SimulationConfigs, ConfigError, config_error, validate};
use crate::engine::SimulationState;
use crate::generator::{seeded, next_draw, pcg64_draw};
use crate::trial::{trial_outcome_ok, trial_result};

verus! {

/// The configuration, the number of trials and, index-aligned to the trials,
/// their collapse ticks and threshold ticks.
pub struct Results {
    pub trial_count: i64,
    pub configs: SimulationConfigs,
    pub results: Vec<i64>,
    pub results_z: Vec<i64>,
}

/// `trial_count` seeds drawn in sequence from a generator seeded with
/// `base_seed`: the seed of trial `i` is the `i`-th draw.
pub fn derive_seeds(base_seed: u64, trial_count: usize) -> (r: Vec<u64>)
    ensures
        r@.len() == trial_count,
        forall|i: int| 0 <= i < trial_count ==> #[trigger] r@[i] == pcg64_draw(base_seed, i as nat),
{
    let mut g = seeded(base_seed);
    let mut seeds: Vec<u64> = Vec::with_capacity(trial_count);
    let mut i: usize = 0;
    while i < trial_count
        invariant
            i <= trial_count,
            seeds@.len() == i,
            g.seed() == base_seed,
            g.drawn() == i,
            forall|j: int| 0 <= j < i ==> #[trigger] seeds@[j] == pcg64_draw(base_seed, j as nat),
        decreases trial_count - i,
    {
        seeds.push(next_draw(&mut g));
        i = i + 1;
    }
    seeds
}

/// Runs one trial per seed, in order, each on `configs` with its seed.
pub fn run_trials(configs: SimulationConfigs, seeds: &Vec<u64>) -> (r: Vec<(i64, i64)>)
    requires
        configs.valid(),
    ensures
        r@.len() == seeds@.len(),
        forall|i: int| 0 <= i < r@.len() ==> trial_outcome_ok(configs, #[trigger] r@[i]),
        forall|i: int|
            0 <= i < r@.len() ==> ((#[trigger] r@[i]).0 as int, r@[i].1 as int) == trial_result(
                SimulationConfigs { seed: seeds@[i], ..configs },
            ),
{
    let mut out: Vec<(i64, i64)> = Vec::with_capacity(seeds.len());
    let mut i: usize = 0;
    while i < seeds.len()
        invariant
            configs.valid(),
            i <= seeds@.len(),
            out@.len() == i,
            forall|j: int| 0 <= j < i ==> trial_outcome_ok(configs, #[trigger] out@[j]),
            forall|j: int|
                0 <= j < i ==> ((#[trigger] out@[j]).0 as int, out@[j].1 as int) == trial_result(
                    SimulationConfigs { seed: seeds@[j], ..configs },
                ),
        decreases seeds@.len() - i,
    {
        let o = SimulationState::run_trial(configs.with_seed(seeds[i]));
        out.push(o);
        i = i + 1;
    }
    out
}

/// Splits the trial outcomes, kept in trial order, into the two sequences of
/// the aggregate.
pub fn collect_results(trial_count: i64, configs: SimulationConfigs, outcomes: &Vec<(i64, i64)>) -> (r: Results)
    ensures
        r.trial_count == trial_count,
        r.configs == configs,
        r.results@.len() == outcomes@.len(),
        r.results_z@.len() == outcomes@.len(),
        forall|i: int| 0 <= i < outcomes@.len() ==> r.results@[i] == (#[trigger] outcomes@[i]).0 && r.results_z@[i] == outcomes@[i].1,
{
    let mut results: Vec<i64> = Vec::with_capacity(outcomes.len());
    let mut results_z: Vec<i64> = Vec::with_capacity(outcomes.len());
    let mut i: usize = 0;
    while i < outcomes.len()
        invariant
            i <= outcomes@.len(),
            results@.len() == i,
            results_z@.len() == i,
            forall|j: int| 0 <= j < i ==> results@[j] == (#[trigger] outcomes@[j]).0 && results_z@[j] == outcomes@[j].1,
        decreases outcomes@.len() - i,
    {
        let (a, b) = outcomes[i];
        results.push(a);
        results_z.push(b);
        i = i + 1;
    }
    Results { trial_count, configs, results, results_z }
}

/// The outcome of trial `i` of a batch on `configs`: the trial whose seed is
/// the `i`-th value of the generator seeded with `configs.seed`.
pub open spec fn batch_trial(configs: SimulationConfigs, i: int) -> (int, int) {
    trial_result(SimulationConfigs { seed: pcg64_draw(configs.seed, i as nat), ..configs })
}

/// Validates the request, derives one seed per trial from `configs.seed`,
/// runs the trials in order and aggregates them. `configs.seed` is used as
/// the base seed as it is: a caller that takes zero to mean "seed from the
/// clock" replaces it before the call.
pub fn simulate_raw(trial_count: i64, configs: SimulationConfigs) -> (r: Result<Results, ConfigError>)
    ensures
        r is Err <==> config_error(trial_count as int, configs) is Some,
        r is Err ==> config_error(trial_count as int, configs) == Some(r->Err_0),
        r is Ok ==> ({
            let res = r->Ok_0;
            &&& res.trial_count == trial_count
            &&& res.configs == configs
            &&& res.results@.len() == trial_count
            &&& res.results_z@.len() == trial_count
            &&& forall|i: int| 0 <= i < trial_count ==>
                trial_outcome_ok(configs, (#[trigger] res.results@[i], res.results_z@[i]))
                    && (res.results@[i] as int, res.results_z@[i] as int) == batch_trial(configs, i)
        }),
{
    match validate(trial_count, &configs) {
        Err(e) => Err(e),
        Ok(()) => {
            let seeds = derive_seeds(configs.seed, trial_count as usize);
            let outcomes = run_trials(configs, &seeds);
            let res = collect_results(trial_count, configs, &outcomes);
            assert forall|i: int| 0 <= i < trial_count implies trial_outcome_ok(
                configs,
                (#[trigger] res.results@[i], res.results_z@[i]),
            ) && (res.results@[i] as int, res.results_z@[i] as int) == batch_trial(configs, i) by {
                assert(trial_outcome_ok(configs, outcomes@[i]));
                assert(seeds@[i] == pcg64_draw(configs.seed, i as nat));
                assert(outcomes@[i] == (res.results@[i], res.results_z@[i]));
            }
            Ok(res)
        },
    }
}

} // verus!
