use rustysimulator::batch::{collect_results, derive_seeds, run_trials, simulate_raw};
use rustysimulator::config::{validate, ConfigError, SimulationConfigs, ONE, P0_BOUND};
use rustysimulator::engine::{fails_on_draw, SimulationState};
use rustysimulator::hazard::p;
use rustysimulator::machine::MachineState;
use rustysimulator::trial::is_availability_low;

fn cfg(n: i64, p0: i128, s0: i64, tr: i64, beta: i128, seed: u64, max_cycles: i64) -> SimulationConfigs {
    SimulationConfigs { n, p0, s0, tr, beta, seed, max_cycles }
}

fn operating(m: &MachineState) -> bool {
    m.run_begin != 0
}

fn under_repair(m: &MachineState) -> bool {
    m.repair_end != 0
}

fn idle(m: &MachineState) -> bool {
    m.run_begin == 0 && m.repair_end == 0
}

#[test]
fn single_machine_certain_failure_collapses_at_first_tick() {
    for seed in [0u64, 1, 7, 42, u64::MAX] {
        let c = cfg(1, ONE, 0, 5, 0, seed, 10);
        assert_eq!(SimulationState::run_trial(c), (1, 1));
    }
}

#[test]
fn zero_hazard_runs_to_the_cap() {
    for seed in [1u64, 2, 3, 99, 123456789] {
        let c = cfg(5, 0, 5, 3, 0, seed, 100);
        assert_eq!(SimulationState::run_trial(c), (100, 100));
    }
}

#[test]
fn batch_with_fixed_seed_is_reproducible() {
    let c = cfg(10, ONE / 100, 3, 5, ONE / 10000, 42, 1000);
    let a = simulate_raw(1000, c).ok().unwrap();
    let b = simulate_raw(1000, c).ok().unwrap();
    assert_eq!(a.trial_count, 1000);
    assert_eq!(a.results.len(), 1000);
    assert_eq!(a.results_z.len(), 1000);
    assert_eq!(a.results, b.results);
    assert_eq!(a.results_z, b.results_z);
    assert_eq!(a.configs, c);
}

#[test]
fn trial_is_determined_by_its_configuration() {
    let c = cfg(20, ONE / 50, 4, 7, ONE / 1000, 2024, 0);
    let first = SimulationState::run_trial(c);
    for _ in 0..3 {
        assert_eq!(SimulationState::run_trial(c), first);
    }
}

#[test]
fn batch_seeds_differ_between_trials() {
    let c = cfg(10, ONE / 20, 2, 4, 0, 5, 10000);
    let r = simulate_raw(50, c).ok().unwrap();
    let first = r.results[0];
    assert!(r.results.iter().any(|x| *x != first));
}

#[test]
fn collapse_tick_respects_cap() {
    for seed in 1u64..40 {
        let c = cfg(3, ONE / 1000, 2, 10, 0, seed, 25);
        let (collapse, threshold) = SimulationState::run_trial(c);
        assert!(collapse >= 1 && collapse <= 25);
        assert!(threshold >= 1 && threshold <= collapse);
    }
}

#[test]
fn threshold_never_after_collapse() {
    let c = cfg(8, ONE / 30, 6, 12, ONE / 5000, 77, 0);
    let r = simulate_raw(200, c).ok().unwrap();
    for i in 0..200 {
        assert!(r.results_z[i] >= 1);
        assert!(r.results_z[i] <= r.results[i]);
    }
}

#[test]
fn no_spares_marks_threshold_at_first_tick() {
    let c = cfg(4, 0, 0, 3, 0, 9, 50);
    assert_eq!(SimulationState::run_trial(c), (50, 1));
}

#[test]
fn states_partition_the_pool_on_every_tick() {
    let c = cfg(6, ONE / 4, 4, 3, ONE / 100, 31337, 0);
    let mut s = SimulationState::new(c);
    for _ in 0..200 {
        let collapsed = s.next();
        let ops = s.machines.iter().filter(|m| operating(m)).count();
        let idles = s.machines.iter().filter(|m| idle(m)).count();
        let reps = s.machines.iter().filter(|m| under_repair(m)).count();
        assert_eq!(ops + idles + reps, 10);
        assert_eq!(s.machines.len(), 10);
        assert_eq!(ops as i64, s.running);
        assert!(s.running <= 6);
        assert_eq!(collapsed, s.running < 6);
        if collapsed {
            break;
        }
    }
}

#[test]
fn idle_queue_matches_idle_machines() {
    let c = cfg(5, ONE / 3, 5, 2, 0, 4242, 0);
    let mut s = SimulationState::new(c);
    for _ in 0..100 {
        let collapsed = s.next();
        let queued: Vec<usize> = s.idle.iter().copied().collect();
        for (i, m) in s.machines.iter().enumerate() {
            let n = queued.iter().filter(|x| **x == i).count();
            assert!(n <= 1);
            assert_eq!(n == 1, idle(m));
        }
        if collapsed {
            break;
        }
    }
}

#[test]
fn hazard_grows_with_elapsed_time_and_is_capped() {
    let c = cfg(1, ONE / 10, 0, 1, ONE / 100, 0, 0);
    let mut last = 0i128;
    for clock in 5i64..200 {
        let h = p(&c, clock, 5);
        assert!(h >= last);
        assert!(h <= ONE);
        last = h;
    }
    assert_eq!(p(&c, 5, 5), ONE / 10);
    assert_eq!(p(&c, 15, 5), ONE / 10 + 10 * (ONE / 100));
    assert_eq!(p(&c, 200, 5), ONE);
}

#[test]
fn negative_hazard_is_taken_as_zero() {
    let c = cfg(1, ONE / 10, 0, 1, -(ONE / 100), 0, 0);
    assert_eq!(p(&c, 1, 1), ONE / 10);
    assert_eq!(p(&c, 11, 1), ONE / 10 - 10 * (ONE / 100));
    assert_eq!(p(&c, 12, 1), 0);
    assert_eq!(p(&c, 50, 1), 0);
    assert_eq!(p(&c, i64::MAX, 0), 0);
    let big = cfg(1, 0, 0, 1, i128::MAX, 0, 0);
    assert_eq!(p(&big, i64::MAX, 0), ONE);
}

#[test]
fn bernoulli_outcome_compares_draw_with_probability() {
    assert!(fails_on_draw(ONE / 2, 0));
    assert!(fails_on_draw(ONE / 2, (1u64 << 63) - 1));
    assert!(!fails_on_draw(ONE / 2, 1u64 << 63));
    assert!(!fails_on_draw(0, 0));
    assert!(fails_on_draw(ONE - 1, u64::MAX - 1));
    assert!(!fails_on_draw(ONE - 1, u64::MAX));
}

#[test]
fn availability_threshold_is_one_fifth() {
    assert!(is_availability_low(0, 0));
    assert!(is_availability_low(3, 0));
    assert!(!is_availability_low(1, 5));
    assert!(is_availability_low(0, 5));
    assert!(is_availability_low(1, 6));
    assert!(!is_availability_low(2, 10));
    assert!(is_availability_low(1, 10));
}

#[test]
fn fresh_state_has_spares_queued_in_order() {
    let s = SimulationState::new(cfg(3, 0, 2, 4, 0, 1, 0));
    assert_eq!(s.clock, 0);
    assert_eq!(s.running, 3);
    assert_eq!(s.machines.len(), 5);
    for i in 0..3 {
        assert_eq!(s.machines[i], MachineState { run_begin: 1, repair_end: 0 });
    }
    for i in 3..5 {
        assert_eq!(s.machines[i], MachineState { run_begin: 0, repair_end: 0 });
    }
    let queued: Vec<usize> = s.idle.iter().copied().collect();
    assert_eq!(queued, vec![3, 4]);
}

#[test]
fn tick_replaces_failed_machine_and_returns_it_after_repair() {
    let mut s = SimulationState::new(cfg(2, 0, 1, 2, 0, 1, 0));
    s.apply_tick(&vec![true, false, false]);
    assert_eq!(s.clock, 1);
    assert_eq!(s.running, 2);
    assert_eq!(s.machines[0], MachineState { run_begin: 0, repair_end: 3 });
    assert_eq!(s.machines[2], MachineState { run_begin: 1, repair_end: 0 });
    assert!(s.idle.is_empty());
    s.apply_tick(&vec![false, false, false]);
    assert_eq!(s.clock, 2);
    assert!(s.idle.is_empty());
    s.apply_tick(&vec![false, false, false]);
    assert_eq!(s.clock, 3);
    assert_eq!(s.machines[0], MachineState { run_begin: 0, repair_end: 0 });
    let queued: Vec<usize> = s.idle.iter().copied().collect();
    assert_eq!(queued, vec![0]);
    s.apply_tick(&vec![false, true, false]);
    assert_eq!(s.running, 2);
    assert_eq!(s.machines[0], MachineState { run_begin: 4, repair_end: 0 });
    assert_eq!(s.machines[1], MachineState { run_begin: 0, repair_end: 6 });
    assert!(s.idle.is_empty());
}

#[test]
fn unreplaced_failure_lowers_running_count() {
    let mut s = SimulationState::new(cfg(3, 0, 0, 1, 0, 1, 0));
    s.apply_tick(&vec![false, true, true]);
    assert_eq!(s.running, 1);
    assert_eq!(s.machines[1], MachineState { run_begin: 0, repair_end: 2 });
    s.apply_tick(&vec![false, false, false]);
    assert_eq!(s.running, 3);
    assert_eq!(s.machines[1], MachineState { run_begin: 2, repair_end: 0 });
    assert_eq!(s.machines[2], MachineState { run_begin: 2, repair_end: 0 });
}

#[test]
fn certain_failure_draws_nothing_and_zero_never_fails() {
    let mut s = SimulationState::new(cfg(3, ONE, 1, 4, 0, 8, 0));
    let f = s.draw_failures();
    assert_eq!(f, vec![true, true, true, false]);
    let mut z = SimulationState::new(cfg(3, 0, 1, 4, 0, 8, 0));
    assert_eq!(z.draw_failures(), vec![false, false, false, false]);
}

#[test]
fn seeds_are_drawn_from_the_base_seed() {
    let a = derive_seeds(42, 5);
    assert_eq!(a.len(), 5);
    assert_eq!(a, derive_seeds(42, 5));
    assert_ne!(a, derive_seeds(43, 5));
    assert!(a.iter().all(|x| *x != 42));
    assert_ne!(a[0], a[1]);
    assert_eq!(derive_seeds(42, 3)[..], a[..3]);
    assert!(derive_seeds(1, 0).is_empty());
}

#[test]
fn trials_follow_seed_order() {
    let c = cfg(6, ONE / 20, 2, 6, 0, 0, 5000);
    let seeds = derive_seeds(11, 8);
    let out = run_trials(c, &seeds);
    for (i, s) in seeds.iter().enumerate() {
        assert_eq!(out[i], SimulationState::run_trial(c.with_seed(*s)));
    }
    let r = collect_results(8, c, &out);
    for i in 0..8 {
        assert_eq!((r.results[i], r.results_z[i]), out[i]);
    }
}

#[test]
fn cap_beyond_repair_range_falls_back_to_limit() {
    let c = cfg(1, 0, 0, 10, 0, 0, i64::MAX);
    assert_eq!(c.limit(), i64::MAX - 10);
    assert_eq!(cfg(1, 0, 0, 10, 0, 0, 0).limit(), i64::MAX - 10);
    assert_eq!(cfg(1, 0, 0, 10, 0, 0, -5).limit(), i64::MAX - 10);
    assert_eq!(cfg(1, 0, 0, 10, 0, 0, 77).limit(), 77);
}

#[test]
fn each_configuration_error_is_reported() {
    let ok = cfg(2, ONE / 10, 1, 3, 0, 1, 10);
    assert_eq!(validate(5, &ok), Ok(()));
    assert_eq!(validate(-1, &ok), Err(ConfigError::NegativeTrialCount));
    assert_eq!(validate(1, &cfg(-1, 0, 1, 3, 0, 1, 10)), Err(ConfigError::NegativeMachineCount));
    assert_eq!(validate(1, &cfg(1, 0, -1, 3, 0, 1, 10)), Err(ConfigError::NegativeSpareCount));
    assert_eq!(validate(1, &cfg(1, 0, 1, -3, 0, 1, 10)), Err(ConfigError::NegativeRepairTime));
    assert_eq!(validate(1, &cfg(1, 0, 1, i64::MAX, 0, 1, 10)), Err(ConfigError::RepairTimeTooLong));
    assert_eq!(validate(1, &cfg(1, P0_BOUND + 1, 1, 3, 0, 1, 10)), Err(ConfigError::ProbabilityOutOfRange));
    assert_eq!(validate(1, &cfg(1, -P0_BOUND - 1, 1, 3, 0, 1, 10)), Err(ConfigError::ProbabilityOutOfRange));
    assert!(matches!(simulate_raw(-3, ok), Err(ConfigError::NegativeTrialCount)));
    assert_eq!(simulate_raw(0, ok).ok().unwrap().results.len(), 0);
}

#[test]
fn one_is_two_to_the_sixty_fourth() {
    assert_eq!(ONE, 1i128 << 64);
}

#[test]
fn batch_trial_uses_the_derived_seed_of_its_index() {
    let c = cfg(7, ONE / 25, 3, 5, ONE / 2000, 42, 3000);
    let r = simulate_raw(12, c).ok().unwrap();
    let seeds = derive_seeds(42, 12);
    for i in 0..12 {
        assert_eq!((r.results[i], r.results_z[i]), SimulationState::run_trial(c.with_seed(seeds[i])));
    }
}

#[test]
fn shorter_batch_is_a_prefix_of_a_longer_one() {
    let c = cfg(9, ONE / 40, 2, 6, 0, 1234, 2000);
    let short = simulate_raw(5, c).ok().unwrap();
    let long = simulate_raw(20, c).ok().unwrap();
    assert_eq!(short.results[..], long.results[..5]);
    assert_eq!(short.results_z[..], long.results_z[..5]);
}

#[test]
fn smaller_cap_cuts_the_same_trial_short() {
    let full = cfg(4, ONE / 200, 2, 30, ONE / 100000, 555, 100000);
    let (e2, z2) = SimulationState::run_trial(full);
    for m1 in [1i64, 2, 5, 10, 50, 200, 1000] {
        let (e1, z1) = SimulationState::run_trial(SimulationConfigs { max_cycles: m1, ..full });
        assert_eq!(e1, e2.min(m1));
        assert_eq!(z1, z2.min(m1));
    }
}

#[test]
fn trial_matches_successive_ticks_of_a_fresh_state() {
    let c = cfg(6, ONE / 30, 3, 8, 0, 777, 5000);
    let (end, low) = SimulationState::run_trial(c);
    let mut s = SimulationState::new(c);
    let mut first_low = 0i64;
    loop {
        let collapsed = s.next();
        if collapsed || s.clock >= 5000 {
            break;
        }
        if first_low == 0 && is_availability_low(s.idle.len(), 3) {
            first_low = s.clock;
        }
    }
    assert_eq!(end, s.clock);
    assert_eq!(low, if first_low == 0 { s.clock } else { first_low });
}
