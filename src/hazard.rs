//! The per-tick failure probability of an operating machine.
use vstd::prelude::*;
use crate::config::{SimulationConfigs, ONE, P0_BOUND};

verus! {

/// `p0 + beta * elapsed`, limited to the probabilities `[0, ONE]`.
pub open spec fn hazard_of(p0: int, beta: int, elapsed: int) -> int {
    let raw = p0 + beta * elapsed;
    if raw >= ONE {
        ONE as int
    } else if raw <= 0 {
        0
    } else {
        raw
    }
}

/// Failure probability of a machine that began operating at `run_begin`,
/// at tick `clock`. A negative value is taken as probability zero.
pub fn p(configs: &SimulationConfigs, clock: i64, run_begin: i64) -> (r: i128)
    requires
        0 <= run_begin <= clock,
        -P0_BOUND <= configs.p0 <= P0_BOUND,
    ensures
        r == hazard_of(configs.p0 as int, configs.beta as int, clock - run_begin),
        0 <= r <= ONE,
{
    let elapsed = (clock - run_begin) as i128;
    let bound: i128 = P0_BOUND + ONE;
    let raw: i128 = match configs.beta.checked_mul(elapsed) {
        None => {
            if configs.beta > 0 {
                ONE
            } else {
                0
            }
        },
        Some(grow) => {
            if grow > bound {
                ONE
            } else if grow < -bound {
                0
            } else {
                configs.p0 + grow
            }
        },
    };
    proof {
        let g = configs.beta as int * elapsed as int;
        if g > i128::MAX || g < i128::MIN {
            if configs.beta > 0 {
                assert(elapsed >= 0);
                assert(g >= 0) by (nonlinear_arith)
                    requires configs.beta > 0, elapsed >= 0, g == configs.beta as int * elapsed as int;
            } else {
                assert(g <= 0) by (nonlinear_arith)
                    requires configs.beta <= 0, elapsed >= 0, g == configs.beta as int * elapsed as int;
            }
        }
    }
    if raw >= ONE {
        ONE
    } else if raw <= 0 {
        0
    } else {
        raw
    }
}

/// For `beta >= 0` the failure probability never decreases as a machine
/// keeps operating, and it never exceeds one.
pub proof fn lemma_hazard_monotonic(p0: int, beta: int, e1: int, e2: int)
    requires
        0 <= beta,
        0 <= e1 <= e2,
    ensures
        hazard_of(p0, beta, e1) <= hazard_of(p0, beta, e2) <= ONE,
{
    assert(beta * e1 <= beta * e2) by (nonlinear_arith)
        requires 0 <= beta, e1 <= e2;
}

} // verus!
