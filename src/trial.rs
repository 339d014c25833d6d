//! One trial: a fresh simulation run until collapse or the tick limit.
use vstd::prelude::*;
use crate::config::SimulationConfigs;
use crate::engine::{
    SimulationState, PoolView, next_view, failures_allowed, first_pass, repaired_upto, failures_upto,
    tick_failures, draws_used,
};
use crate::hazard::hazard_of;
use crate::config::ONE;
use crate::machine::MachineState;

verus! {

/// Spare availability, `idle / s0`, is below one fifth; with no spares it
/// counts as zero.
pub open spec fn availability_low(idle: int, s0: int) -> bool {
    s0 == 0 || 5 * idle < s0
}

/// Whether `idle` idle spares out of `s0` is low availability.
pub fn is_availability_low(idle: usize, s0: i64) -> (r: bool)
    requires
        0 <= s0,
    ensures
        r == availability_low(idle as int, s0 as int),
{
    s0 == 0 || (idle as u128) * 5 < s0 as u128
}

/// What every trial outcome `(collapse_tick, threshold_tick)` satisfies: the
/// threshold tick comes no later than the collapse tick, and the collapse
/// tick respects the cap.
pub open spec fn trial_outcome_ok(cfg: SimulationConfigs, o: (i64, i64)) -> bool {
    &&& 1 <= o.1 <= o.0 <= cfg.tick_limit()
    &&& cfg.max_cycles > 0 ==> o.0 <= cfg.max_cycles
}


/// The view of a fresh trial.
pub open spec fn initial_view(cfg: SimulationConfigs) -> PoolView {
    PoolView {
        clock: 0,
        running: cfg.n as int,
        machines: Seq::new(
            cfg.pool_size() as nat,
            |i: int|
                if i < cfg.n {
                    MachineState { run_begin: 1, repair_end: 0 }
                } else {
                    MachineState { run_begin: 0, repair_end: 0 }
                },
        ),
        idle: Seq::new(cfg.s0 as nat, |k: int| (cfg.n + k) as usize),
    }
}

/// The view of a trial of `cfg` after `t` ticks, and how many values its
/// generator has given by then.
pub open spec fn state_after(cfg: SimulationConfigs, t: nat) -> (PoolView, nat)
    decreases t,
{
    if t == 0 {
        (initial_view(cfg), 0)
    } else {
        let prev = state_after(cfg, (t - 1) as nat);
        let v = prev.0;
        let c = v.clock + 1;
        (
            next_view(cfg, v, tick_failures(cfg, c, v.machines, cfg.seed, prev.1)),
            prev.1 + draws_used(cfg, c, v.machines, v.machines.len() as int),
        )
    }
}

/// The tick at which a trial of `cfg` ends, looking from tick `t` on: the
/// first at which fewer than `n` machines operate, or the tick limit.
pub open spec fn end_from(cfg: SimulationConfigs, t: int) -> int
    decreases cfg.tick_limit() - t,
{
    if t >= cfg.tick_limit() || state_after(cfg, t as nat).0.running < cfg.n {
        t
    } else {
        end_from(cfg, t + 1)
    }
}

/// The first tick from `t` on, before `end`, at which availability is low;
/// `end` if there is none.
pub open spec fn low_from(cfg: SimulationConfigs, t: int, end: int) -> int
    decreases end - t,
{
    if t >= end {
        end
    } else if availability_low(state_after(cfg, t as nat).0.idle.len() as int, cfg.s0 as int) {
        t
    } else {
        low_from(cfg, t + 1, end)
    }
}

/// The outcome of the trial of `cfg`: the tick at which it ends and the
/// first tick before that with low availability, or the end tick.
pub open spec fn trial_result(cfg: SimulationConfigs) -> (int, int) {
    let e = end_from(cfg, 1);
    (e, low_from(cfg, 1, e))
}

proof fn lemma_end_from_ge(cfg: SimulationConfigs, t: int)
    ensures
        end_from(cfg, t) >= t,
    decreases cfg.tick_limit() - t,
{
    if !(t >= cfg.tick_limit() || state_after(cfg, t as nat).0.running < cfg.n) {
        lemma_end_from_ge(cfg, t + 1);
    }
}

/// The configurations differ at most in their cap.
pub open spec fn same_but_cap(a: SimulationConfigs, b: SimulationConfigs) -> bool {
    a == (SimulationConfigs { max_cycles: a.max_cycles, ..b })
}

proof fn lemma_draws_used_cap(a: SimulationConfigs, b: SimulationConfigs, clock: int, ms: Seq<MachineState>, k: int)
    requires
        same_but_cap(a, b),
    ensures
        draws_used(a, clock, ms, k) == draws_used(b, clock, ms, k),
    decreases k,
{
    if k > 0 {
        lemma_draws_used_cap(a, b, clock, ms, k - 1);
    }
}

proof fn lemma_state_after_cap(a: SimulationConfigs, b: SimulationConfigs, t: nat)
    requires
        same_but_cap(a, b),
    ensures
        state_after(a, t) == state_after(b, t),
    decreases t,
{
    if t == 0 {
        assert(initial_view(a) == initial_view(b));
    } else {
        lemma_state_after_cap(a, b, (t - 1) as nat);
        let prev = state_after(b, (t - 1) as nat);
        let v = prev.0;
        let c = v.clock + 1;
        lemma_draws_used_cap(a, b, c, v.machines, v.machines.len() as int);
        assert forall|i: int| 0 <= i < v.machines.len() implies draws_used(a, c, v.machines, i) == draws_used(
            b,
            c,
            v.machines,
            i,
        ) by {
            lemma_draws_used_cap(a, b, c, v.machines, i);
        }
        assert(tick_failures(a, c, v.machines, a.seed, prev.1) =~= tick_failures(b, c, v.machines, b.seed, prev.1));
        let f = tick_failures(b, c, v.machines, b.seed, prev.1);
        assert(next_view(a, v, f) == next_view(b, v, f));
    }
}

proof fn lemma_end_from_le(cfg: SimulationConfigs, t: int)
    requires
        t <= cfg.tick_limit(),
    ensures
        end_from(cfg, t) <= cfg.tick_limit(),
    decreases cfg.tick_limit() - t,
{
    if !(t >= cfg.tick_limit() || state_after(cfg, t as nat).0.running < cfg.n) {
        lemma_end_from_le(cfg, t + 1);
    }
}

proof fn lemma_low_from_bounds(cfg: SimulationConfigs, t: int, e: int)
    requires
        t <= e,
    ensures
        t <= low_from(cfg, t, e) <= e,
    decreases e - t,
{
    if t < e && !availability_low(state_after(cfg, t as nat).0.idle.len() as int, cfg.s0 as int) {
        lemma_low_from_bounds(cfg, t + 1, e);
    }
}

proof fn lemma_end_from_cap(a: SimulationConfigs, b: SimulationConfigs, t: int)
    requires
        same_but_cap(a, b),
        a.tick_limit() <= b.tick_limit(),
        0 <= t <= a.tick_limit(),
    ensures
        end_from(a, t) == if end_from(b, t) < a.tick_limit() { end_from(b, t) } else { a.tick_limit() },
    decreases a.tick_limit() - t,
{
    lemma_end_from_ge(b, t);
    lemma_state_after_cap(a, b, t as nat);
    if t < a.tick_limit() && state_after(a, t as nat).0.running >= a.n {
        lemma_end_from_cap(a, b, t + 1);
    }
}

proof fn lemma_low_from_cap(a: SimulationConfigs, b: SimulationConfigs, t: int, e1: int, e2: int)
    requires
        same_but_cap(a, b),
        0 <= t <= e1 <= e2,
    ensures
        low_from(a, t, e1) == if low_from(b, t, e2) < e1 { low_from(b, t, e2) } else { e1 },
    decreases e1 - t,
{
    lemma_low_from_bounds(b, t, e2);
    lemma_state_after_cap(a, b, t as nat);
    if t < e1 && !availability_low(state_after(a, t as nat).0.idle.len() as int, a.s0 as int) {
        lemma_low_from_cap(a, b, t + 1, e1, e2);
    }
}

/// A smaller cap only cuts the same trial short: with the cap lowered to
/// `m1`, both ticks of the outcome are those of the original trial, limited
/// to `m1`.
pub proof fn lemma_smaller_cap_truncates(cfg: SimulationConfigs, m1: i64)
    requires
        cfg.valid(),
        0 < m1 <= cfg.max_cycles,
    ensures
        ({
            let short = trial_result(SimulationConfigs { max_cycles: m1, ..cfg });
            let full = trial_result(cfg);
            &&& short.0 == if full.0 < m1 { full.0 } else { m1 as int }
            &&& short.1 == if full.1 < m1 { full.1 } else { m1 as int }
        }),
{
    let a = SimulationConfigs { max_cycles: m1, ..cfg };
    let b = cfg;
    assert(same_but_cap(a, b));
    lemma_end_from_cap(a, b, 1);
    lemma_end_from_le(b, 1);
    let e1 = end_from(a, 1);
    let e2 = end_from(b, 1);
    lemma_end_from_ge(a, 1);
    lemma_low_from_cap(a, b, 1, e1, e2);
    lemma_low_from_bounds(b, 1, e2);
}

/// `b` follows `a` by one tick, with failures that the generator may give.
pub open spec fn step_ok(cfg: SimulationConfigs, a: PoolView, b: PoolView) -> bool {
    exists|failed: Seq<bool>|
        failures_allowed(cfg, a.clock + 1, a.machines, failed) && b == next_view(cfg, a, failed)
}

/// `views` starts from a fresh trial and goes on tick by tick.
pub open spec fn is_run(cfg: SimulationConfigs, views: Seq<PoolView>) -> bool {
    &&& views.len() >= 1
    &&& views[0] == initial_view(cfg)
    &&& forall|k: int| 0 <= k < views.len() - 1 ==> #[trigger] step_ok(cfg, views[k], views[k + 1])
}

/// A trial stops once fewer than `n` machines operate or at the tick limit.
pub open spec fn stops(cfg: SimulationConfigs, v: PoolView) -> bool {
    v.running < cfg.n || v.clock >= cfg.tick_limit()
}

/// The tick of the first view after the initial one at which availability is
/// low, or zero if there is none.
pub open spec fn first_low(views: Seq<PoolView>, s0: int) -> int
    decreases views.len(),
{
    if views.len() <= 1 {
        0
    } else {
        let f = first_low(views.drop_last(), s0);
        if f != 0 {
            f
        } else if availability_low(views.last().idle.len() as int, s0) {
            views.last().clock
        } else {
            0
        }
    }
}

/// The outcome of a trial that ran through `views`: the last tick, and the
/// first tick before it with low availability, or the last tick.
pub open spec fn run_outcome(cfg: SimulationConfigs, views: Seq<PoolView>) -> (int, int) {
    let last = views.last().clock;
    let f = first_low(views.drop_last(), cfg.s0 as int);
    (last, if f == 0 { last } else { f })
}

/// `views` is a whole trial: a run that stops at its last view and not before.
pub open spec fn is_trial(cfg: SimulationConfigs, views: Seq<PoolView>) -> bool {
    &&& is_run(cfg, views)
    &&& views.len() >= 2
    &&& stops(cfg, views.last())
    &&& forall|k: int| 1 <= k < views.len() - 1 ==> !stops(cfg, #[trigger] views[k])
}


/// `o` is the outcome of some whole trial of `cfg`.
pub open spec fn trial_outcome(cfg: SimulationConfigs, o: (i64, i64)) -> bool {
    exists|views: Seq<PoolView>| is_trial(cfg, views) && run_outcome(cfg, views) == (o.0 as int, o.1 as int)
}

proof fn lemma_none_repaired(ms: Seq<MachineState>, c: int, k: int)
    requires
        0 <= k <= ms.len(),
        forall|i: int| 0 <= i < k ==> (#[trigger] ms[i]).repair_end == 0,
    ensures
        repaired_upto(ms, c, k) == Seq::<usize>::empty(),
    decreases k,
{
    if k > 0 {
        lemma_none_repaired(ms, c, k - 1);
        assert(repaired_upto(ms, c, k) =~= Seq::<usize>::empty());
    }
}

proof fn lemma_failures_count(ms: Seq<MachineState>, failed: Seq<bool>, k: int, all: bool)
    requires
        0 <= k <= ms.len(),
        k <= failed.len(),
        forall|i: int| #![trigger ms[i]] #![trigger failed[i]] 0 <= i < k ==> (ms[i].operating() && failed[i]) == all,
    ensures
        failures_upto(ms, failed, k) == if all { k } else { 0 },
    decreases k,
{
    if k > 0 {
        lemma_failures_count(ms, failed, k - 1, all);
    }
}

proof fn lemma_none_low(views: Seq<PoolView>, s0: int)
    requires
        forall|k: int| 1 <= k < views.len() ==> !availability_low((#[trigger] views[k]).idle.len() as int, s0),
    ensures
        first_low(views, s0) == 0,
    decreases views.len(),
{
    if views.len() > 1 {
        let d = views.drop_last();
        assert forall|k: int| 1 <= k < d.len() implies !availability_low((#[trigger] d[k]).idle.len() as int, s0) by {
            assert(d[k] == views[k]);
        }
        lemma_none_low(d, s0);
    }
}

/// With failure probability zero no machine ever fails, so every view of a
/// run is the fresh pool at a later tick.
proof fn lemma_quiet_run(cfg: SimulationConfigs, views: Seq<PoolView>, k: int)
    requires
        cfg.valid(),
        cfg.p0 == 0,
        cfg.beta == 0,
        is_run(cfg, views),
        0 <= k < views.len(),
    ensures
        views[k] == (PoolView { clock: k, ..initial_view(cfg) }),
    decreases k,
{
    if k > 0 {
        lemma_quiet_run(cfg, views, k - 1);
        let a = views[k - 1];
        let j = k - 1;
        assert(step_ok(cfg, views[j], views[j + 1]));
        let failed = choose|failed: Seq<bool>|
            failures_allowed(cfg, a.clock + 1, a.machines, failed) && views[k] == next_view(cfg, a, failed);
        let ms = a.machines;
        let c = a.clock + 1;
        assert forall|i: int| 0 <= i < ms.len() implies (ms[i].operating() && #[trigger] failed[i]) == false by {
            if ms[i].operating() {
                assert(hazard_of(cfg.p0 as int, cfg.beta as int, c - ms[i].run_begin) == 0);
            }
        }
        lemma_none_repaired(ms, c, ms.len() as int);
        lemma_failures_count(ms, failed, ms.len() as int, false);
        let v = next_view(cfg, a, failed);
        assert(a.idle + Seq::<usize>::empty() =~= a.idle);
        assert(v.machines =~= ms) by {
            assert forall|i: int| 0 <= i < ms.len() implies v.machines[i] == ms[i] by {
                assert(!a.idle.take(0).contains(i as usize));
                assert(!failed[i] || !ms[i].operating());
                assert(first_pass(ms[i], c, cfg.tr as int, failed[i]) == ms[i]);
            }
        }
        assert(v.idle =~= a.idle);
    }
}

/// With failure probability zero and at least one spare, every trial runs
/// to the tick limit and availability never drops below one fifth.
pub proof fn lemma_zero_hazard_reaches_limit(cfg: SimulationConfigs, views: Seq<PoolView>)
    requires
        cfg.valid(),
        cfg.p0 == 0,
        cfg.beta == 0,
        cfg.s0 > 0,
        is_trial(cfg, views),
    ensures
        run_outcome(cfg, views) == (cfg.tick_limit(), cfg.tick_limit()),
{
    let last = views.len() - 1;
    let lim = cfg.tick_limit();
    assert forall|k: int| 0 <= k < views.len() implies (#[trigger] views[k]).clock == k && views[k].running
        == cfg.n && views[k].idle.len() == cfg.s0 by {
        lemma_quiet_run(cfg, views, k);
    }
    assert(views[last].clock == last);
    if last > lim {
        assert(stops(cfg, views[lim]));
    }
    let d = views.drop_last();
    assert forall|k: int| 1 <= k < d.len() implies !availability_low((#[trigger] d[k]).idle.len() as int, cfg.s0 as int) by {
        assert(d[k] == views[k]);
    }
    lemma_none_low(d, cfg.s0 as int);
}

/// A machine whose failure probability is one from its first tick fails at
/// once: with no spares, every trial collapses at tick one.
pub proof fn lemma_certain_failure_collapses_at_once(cfg: SimulationConfigs, views: Seq<PoolView>)
    requires
        cfg.valid(),
        cfg.p0 >= ONE,
        cfg.beta >= 0,
        cfg.n >= 1,
        cfg.s0 == 0,
        is_trial(cfg, views),
    ensures
        run_outcome(cfg, views) == (1int, 1int),
{
    let a = views[0];
    let j = 0int;
    assert(step_ok(cfg, views[j], views[j + 1]));
    let failed = choose|failed: Seq<bool>|
        failures_allowed(cfg, a.clock + 1, a.machines, failed) && views[1] == next_view(cfg, a, failed);
    let ms = a.machines;
    assert forall|i: int| 0 <= i < ms.len() implies (ms[i].operating() && #[trigger] failed[i]) == true by {
        assert(ms[i].operating());
        assert(hazard_of(cfg.p0 as int, cfg.beta as int, 1 - ms[i].run_begin) == ONE);
    }
    lemma_none_repaired(ms, 1, ms.len() as int);
    lemma_failures_count(ms, failed, ms.len() as int, true);
    assert(views[1].running < cfg.n);
    assert(views.len() == 2) by {
        if views.len() > 2 {
            assert(!stops(cfg, views[1]));
        }
    }
    assert(views.drop_last().len() == 1);
}

impl SimulationState {
    /// Runs a fresh trial until fewer than `n` machines operate or the tick
    /// limit is reached. Returns the last tick and the first tick before it
    /// at which spare availability was below one fifth (the last tick if
    /// there was none).
    pub fn run_trial(configs: SimulationConfigs) -> (r: (i64, i64))
        requires
            configs.valid(),
        ensures
            trial_outcome_ok(configs, r),
            (r.0 as int, r.1 as int) == trial_result(configs),
            trial_outcome(configs, r),
    {
        let mut state = SimulationState::new(configs);
        let limit = configs.limit();
        let mut z: i64 = 0;
        let mut done = false;
        let ghost mut views: Seq<PoolView> = seq![state.pool()];
        let ghost e = end_from(configs, 1);
        while !done
            invariant
                state.wf(),
                state.configs == configs,
                limit == configs.tick_limit(),
                1 <= limit,
                0 <= state.clock <= limit,
                !done ==> state.clock < limit,
                done ==> 1 <= state.clock,
                0 <= z <= state.clock,
                is_run(configs, views),
                views.last() == state.pool(),
                views.len() >= 1,
                done ==> views.len() >= 2 && stops(configs, views.last()),
                !done ==> forall|k: int| 1 <= k < views.len() ==> !stops(configs, #[trigger] views[k]),
                done ==> forall|k: int| 1 <= k < views.len() - 1 ==> !stops(configs, #[trigger] views[k]),
                forall|k: int| 0 <= k < views.len() ==> (#[trigger] views[k]).clock == k,
                z == first_low(if done { views.drop_last() } else { views }, configs.s0 as int),
                state.rng.seed() == configs.seed,
                (state.pool(), state.rng.drawn()) == state_after(configs, state.clock as nat),
                !done ==> end_from(configs, state.clock + 1) == e,
                done ==> state.clock == e,
                z != 0 ==> z == low_from(configs, 1, e),
                z == 0 && !done ==> low_from(configs, state.clock + 1, e) == low_from(configs, 1, e),
                z == 0 && done ==> low_from(configs, 1, e) == e,
            decreases limit - state.clock,
        {
            let ghost prev = views;
            let ghost c0 = state.clock as int;
            let collapsed = state.next();
            proof {
                let c = state.clock as int;
                assert(c == c0 + 1);
                assert((c - 1) as nat == c0 as nat);
                assert((state.pool(), state.rng.drawn()) == state_after(configs, c as nat));
                lemma_end_from_ge(configs, c + 1);
            }
            proof {
                views = views.push(state.pool());
                assert(views.drop_last() =~= prev);
                assert(step_ok(configs, prev.last(), state.pool()));
                assert forall|k: int| 0 <= k < views.len() - 1 implies #[trigger] step_ok(configs, views[k], views[k + 1]) by {
                    if k < prev.len() - 1 {
                        assert(views[k] == prev[k] && views[k + 1] == prev[k + 1]);
                    }
                }
            }
            if collapsed {
                done = true;
            } else if state.clock >= limit {
                done = true;
            } else if z == 0 && is_availability_low(state.idle.len(), configs.s0) {
                z = state.clock;
            }
        }
        if z == 0 {
            z = state.clock;
        }
        assert(is_trial(configs, views));
        (state.clock, z)
    }
}

} // verus!
