//! The simulation state of one trial and its tick transition.
use vstd::prelude::*;
use std::collections::VecDeque;
use crate::config::{SimulationConfigs, ONE};
use crate::hazard::{hazard_of, p};
use crate::machine::{
    MachineState, count_operating, count_idle, count_under_repair, lemma_states_partition,
    lemma_count_operating_update,
};
use crate::generator::{Generator, seeded, next_draw, pcg64_draw};

verus! {

/// What a tick reads and changes: the clock, the operating count, the
/// machines and the idle queue.
pub struct PoolView {
    pub clock: int,
    pub running: int,
    pub machines: Seq<MachineState>,
    pub idle: Seq<usize>,
}

/// The idle queue holds exactly the idle machines, each once.
pub open spec fn idle_consistent(ms: Seq<MachineState>, idle: Seq<usize>) -> bool {
    &&& idle.no_duplicates()
    &&& forall|k: int| 0 <= k < idle.len() ==> (#[trigger] idle[k]) < ms.len() && ms[idle[k] as int].idle()
    &&& forall|i: int| 0 <= i < ms.len() && (#[trigger] ms[i]).idle() ==> idle.contains(i as usize)
}

/// The repair of `m` is over at tick `clock`.
pub open spec fn repair_done(m: MachineState, clock: int) -> bool {
    m.repair_end != 0 && m.repair_end <= clock
}

/// A machine after the first pass of tick `clock`: an operating machine that
/// fails goes under repair until `clock + tr`; one whose repair is over
/// becomes idle.
pub open spec fn first_pass(m: MachineState, clock: int, tr: int, fails: bool) -> MachineState {
    if m.operating() && fails {
        MachineState { run_begin: 0, repair_end: (clock + tr) as i64 }
    } else if repair_done(m, clock) {
        MachineState { run_begin: m.run_begin, repair_end: 0 }
    } else {
        m
    }
}

/// Indices below `k` whose repair is over at `clock`, in index order.
pub open spec fn repaired_upto(ms: Seq<MachineState>, clock: int, k: int) -> Seq<usize>
    decreases k,
{
    if k <= 0 {
        seq![]
    } else {
        repaired_upto(ms, clock, k - 1) + if repair_done(ms[k - 1], clock) {
            seq![(k - 1) as usize]
        } else {
            seq![]
        }
    }
}

/// Number of operating machines below `k` that fail.
pub open spec fn failures_upto(ms: Seq<MachineState>, failed: Seq<bool>, k: int) -> nat
    decreases k,
{
    if k <= 0 {
        0
    } else {
        failures_upto(ms, failed, k - 1) + if ms[k - 1].operating() && failed[k - 1] {
            1nat
        } else {
            0nat
        }
    }
}

/// The outcomes that the generator may give on tick `clock`: only operating
/// machines fail; a machine whose failure probability is one fails and one
/// whose probability is zero does not.
pub open spec fn failures_allowed(
    cfg: SimulationConfigs,
    clock: int,
    ms: Seq<MachineState>,
    failed: Seq<bool>,
) -> bool {
    &&& failed.len() == ms.len()
    &&& forall|i: int| 0 <= i < ms.len() ==> {
        &&& (#[trigger] failed[i]) ==> ms[i].operating()
        &&& ms[i].operating() && hazard_of(cfg.p0 as int, cfg.beta as int, clock - ms[i].run_begin) == ONE ==> failed[i]
        &&& ms[i].operating() && hazard_of(cfg.p0 as int, cfg.beta as int, clock - ms[i].run_begin) == 0 ==> !failed[i]
    }
}


/// Machine `m` needs a draw at tick `clock`: it operates and its failure
/// probability is below one.
pub open spec fn needs_draw(cfg: SimulationConfigs, clock: int, m: MachineState) -> bool {
    m.operating() && hazard_of(cfg.p0 as int, cfg.beta as int, clock - m.run_begin) < ONE
}

/// Number of machines below `k` that take a draw at tick `clock`.
pub open spec fn draws_used(cfg: SimulationConfigs, clock: int, ms: Seq<MachineState>, k: int) -> nat
    decreases k,
{
    if k <= 0 {
        0
    } else {
        draws_used(cfg, clock, ms, k - 1) + if needs_draw(cfg, clock, ms[k - 1]) {
            1nat
        } else {
            0nat
        }
    }
}

/// Whether machine `i` fails at tick `clock` when the generator of `seed`
/// has given `d0` values before the tick: machines draw in index order, one
/// value each, and a draw below the failure probability is a failure; a
/// machine of probability one fails without a draw.
pub open spec fn fails_at(
    cfg: SimulationConfigs,
    clock: int,
    ms: Seq<MachineState>,
    seed: u64,
    d0: nat,
    i: int,
) -> bool {
    let h = hazard_of(cfg.p0 as int, cfg.beta as int, clock - ms[i].run_begin);
    if !ms[i].operating() {
        false
    } else if h == ONE {
        true
    } else {
        pcg64_draw(seed, d0 + draws_used(cfg, clock, ms, i)) < h
    }
}

/// The failures of tick `clock`, machine by machine.
pub open spec fn tick_failures(
    cfg: SimulationConfigs,
    clock: int,
    ms: Seq<MachineState>,
    seed: u64,
    d0: nat,
) -> Seq<bool> {
    Seq::new(ms.len(), |i: int| fails_at(cfg, clock, ms, seed, d0, i))
}

/// One tick, given which machines fail: the clock advances; repairs that are
/// over put their machines at the back of the idle queue and failing machines
/// go under repair, in index order; then idle machines are taken from the
/// front of the queue to replace the missing ones; `running` is `n` less those
/// still missing.
pub open spec fn next_view(cfg: SimulationConfigs, v: PoolView, failed: Seq<bool>) -> PoolView {
    let c = v.clock + 1;
    let ms = v.machines;
    let queue = v.idle + repaired_upto(ms, c, ms.len() as int);
    let missing = cfg.n - v.running + failures_upto(ms, failed, ms.len() as int);
    let started = if missing < queue.len() { missing } else { queue.len() as int };
    PoolView {
        clock: c,
        running: cfg.n - (missing - started),
        machines: Seq::new(
            ms.len(),
            |i: int|
                if queue.take(started).contains(i as usize) {
                    MachineState { run_begin: c as i64, repair_end: 0 }
                } else {
                    first_pass(ms[i], c, cfg.tr as int, failed[i])
                },
        ),
        idle: queue.skip(started),
    }
}

/// The outcome of a Bernoulli trial of probability `hazard / 2^64 < 1` on a
/// 64-bit draw: it happens when the draw is below `hazard`.
pub fn fails_on_draw(hazard: i128, draw: u64) -> (r: bool)
    requires
        0 <= hazard < ONE,
    ensures
        r == (draw < hazard),
{
    (draw as i128) < hazard
}

/// Every machine of a trial is operating, idle or under repair, so the three
/// counts add up to `n + s0`.
pub proof fn lemma_conservation(s: SimulationState)
    requires
        s.wf(),
    ensures
        count_operating(s.machines@) + count_idle(s.machines@) + count_under_repair(s.machines@)
            == s.configs.n + s.configs.s0,
{
    lemma_states_partition(s.machines@);
}

/// A machine is in the idle queue exactly when it is idle, and the queue
/// holds no index twice.
pub proof fn lemma_idle_queue_exact(s: SimulationState)
    requires
        s.wf(),
    ensures
        s.idle@.no_duplicates(),
        forall|i: int|
            0 <= i < s.machines@.len() ==> (s.idle@.contains(i as usize) <==> (#[trigger] s.machines@[i]).idle()),
{
    assert forall|i: int| 0 <= i < s.machines@.len() implies (s.idle@.contains(i as usize) <==> (
    #[trigger] s.machines@[i]).idle()) by {
        if s.idle@.contains(i as usize) {
            let k = choose|k: int| 0 <= k < s.idle@.len() && s.idle@[k] == i as usize;
            assert(s.machines@[s.idle@[k] as int].idle());
        }
    }
}

/// Everything a trial of one configuration needs.
pub struct SimulationState {
    pub configs: SimulationConfigs,
    pub clock: i64,
    pub running: i64,
    pub rng: Generator,
    pub machines: Vec<MachineState>,
    pub idle: VecDeque<usize>,
}

impl SimulationState {
    pub open spec fn pool(&self) -> PoolView {
        PoolView {
            clock: self.clock as int,
            running: self.running as int,
            machines: self.machines@,
            idle: self.idle@,
        }
    }

    /// The state's invariant.
    pub open spec fn wf(&self) -> bool {
        let ms = self.machines@;
        &&& self.configs.valid()
        &&& ms.len() == self.configs.pool_size()
        &&& 0 <= self.clock
        &&& 0 <= self.running <= self.configs.n
        &&& self.running == count_operating(ms)
        &&& forall|i: int| 0 <= i < ms.len() ==> (#[trigger] ms[i]).consistent()
        &&& forall|i: int| 0 <= i < ms.len() && (#[trigger] ms[i]).operating()
            ==> ms[i].run_begin <= self.clock + 1
        &&& idle_consistent(ms, self.idle@)
    }


    /// A fresh trial: the clock at zero, the first `n` machines operating
    /// since tick one, the `s0` spares idle and queued in index order.
    pub fn new(configs: SimulationConfigs) -> (r: SimulationState)
        requires
            configs.valid(),
        ensures
            r.wf(),
            r.configs == configs,
            r.clock == 0,
            r.running == configs.n,
            r.machines@ == Seq::new(
                configs.pool_size() as nat,
                |i: int|
                    if i < configs.n {
                        MachineState { run_begin: 1, repair_end: 0 }
                    } else {
                        MachineState { run_begin: 0, repair_end: 0 }
                    },
            ),
            r.idle@ == Seq::new(configs.s0 as nat, |k: int| (configs.n + k) as usize),
            r.rng.seed() == configs.seed,
            r.rng.drawn() == 0,
    {
        let n = configs.n as usize;
        let s0 = configs.s0 as usize;
        let mut machines: Vec<MachineState> = Vec::with_capacity(n + s0);
        let mut i: usize = 0;
        while i < n
            invariant
                n == configs.n,
                i <= n,
                machines@.len() == i,
                count_operating(machines@) == i,
                forall|j: int| 0 <= j < i ==> (#[trigger] machines@[j]) == (MachineState { run_begin: 1, repair_end: 0 }),
            decreases n - i,
        {
            let ghost before = machines@;
            machines.push(MachineState { run_begin: 1, repair_end: 0 });
            assert(machines@.drop_last() =~= before);
            i = i + 1;
        }
        let mut idle: VecDeque<usize> = VecDeque::new();
        let mut k: usize = 0;
        while k < s0
            invariant
                n == configs.n,
                s0 == configs.s0,
                n + s0 <= usize::MAX,
                k <= s0,
                machines@.len() == n + k,
                count_operating(machines@) == n,
                forall|j: int| 0 <= j < n ==> (#[trigger] machines@[j]) == (MachineState { run_begin: 1, repair_end: 0 }),
                forall|j: int| n <= j < n + k ==> (#[trigger] machines@[j]) == (MachineState { run_begin: 0, repair_end: 0 }),
                idle@.len() == k,
                forall|j: int| 0 <= j < k ==> (#[trigger] idle@[j]) == n + j,
            decreases s0 - k,
        {
            let ghost before = machines@;
            machines.push(MachineState { run_begin: 0, repair_end: 0 });
            assert(machines@.drop_last() =~= before);
            idle.push_back(n + k);
            k = k + 1;
        }
        let r = SimulationState {
            configs,
            clock: 0,
            running: configs.n,
            rng: seeded(configs.seed),
            machines,
            idle,
        };
        proof {
            let ms = r.machines@;
            let q = r.idle@;
            assert(ms =~= Seq::new(
                configs.pool_size() as nat,
                |i: int|
                    if i < configs.n {
                        MachineState { run_begin: 1, repair_end: 0 }
                    } else {
                        MachineState { run_begin: 0, repair_end: 0 }
                    },
            ));
            assert(q =~= Seq::new(configs.s0 as nat, |k: int| (configs.n + k) as usize));
            assert forall|i: int| 0 <= i < ms.len() && (#[trigger] ms[i]).idle() implies q.contains(
                i as usize,
            ) by {
                assert(q[i - n] == i);
            }
        }
        r
    }


    /// One tick on which exactly the machines `i` with `failed[i]` fail.
    pub fn apply_tick(&mut self, failed: &Vec<bool>)
        requires
            old(self).wf(),
            old(self).clock < old(self).configs.tick_limit(),
            failed@.len() == old(self).machines@.len(),
            forall|i: int|
                0 <= i < failed@.len() && #[trigger] failed@[i] ==> old(self).machines@[i].operating(),
        ensures
            final(self).wf(),
            final(self).configs == old(self).configs,
            final(self).pool() == next_view(old(self).configs, old(self).pool(), failed@),
            final(self).rng == old(self).rng,
    {
        let ghost ms = self.machines@;
        let ghost q0 = self.idle@;
        let ghost cfg = self.configs;
        let ghost running0 = self.running as int;
        self.clock = self.clock + 1;
        let c = self.clock;
        let tr = self.configs.tr;
        let mut missing: i64 = self.configs.n - self.running;
        let len = self.machines.len();
        let mut i: usize = 0;
        while i < len
            invariant
                self.configs == cfg,
                self.rng == old(self).rng,
                cfg.valid(),
                self.clock == c,
                1 <= c,
                c + tr <= i64::MAX,
                tr == cfg.tr,
                self.running == running0,
                running0 == count_operating(ms),
                0 <= running0 <= cfg.n,
                len == ms.len(),
                self.machines@.len() == len,
                failed@.len() == len,
                i <= len,
                forall|j: int| 0 <= j < len ==> (#[trigger] ms[j]).consistent(),
                forall|j: int| 0 <= j < len && (#[trigger] ms[j]).operating() ==> ms[j].run_begin <= c,
                forall|j: int| 0 <= j < len && #[trigger] failed@[j] ==> ms[j].operating(),
                forall|j: int|
                    0 <= j < i ==> (#[trigger] self.machines@[j]) == first_pass(
                        ms[j],
                        c as int,
                        tr as int,
                        failed@[j],
                    ),
                forall|j: int| i <= j < len ==> (#[trigger] self.machines@[j]) == ms[j],
                self.idle@ == q0 + repaired_upto(ms, c as int, i as int),
                missing == cfg.n - running0 + failures_upto(ms, failed@, i as int),
                count_operating(self.machines@) + failures_upto(ms, failed@, i as int) == running0,
                forall|j: int| 0 <= j < len ==> (#[trigger] self.machines@[j]).consistent(),
                idle_consistent(self.machines@, self.idle@),
            decreases len - i,
        {
            let m = self.machines[i];
            let ghost before = self.machines@;
            let ghost qb = self.idle@;
            assert(m == ms[i as int]);
            if m.repair_end != 0 && m.repair_end <= c {
                self.machines[i] = MachineState { run_begin: m.run_begin, repair_end: 0 };
                self.idle.push_back(i);
                proof {
                    lemma_count_operating_update(before, i as int, self.machines@[i as int]);
                    assert(!qb.contains(i)) by {
                        if qb.contains(i) {
                            let k = choose|k: int| 0 <= k < qb.len() && qb[k] == i;
                            assert(before[qb[k] as int].idle());
                        }
                    }
                    assert(self.idle@ == qb.push(i));
                    assert forall|x: int|
                        0 <= x < len && (#[trigger] self.machines@[x]).idle() implies self.idle@.contains(
                        x as usize,
                    ) by {
                        if x == i {
                            assert(self.idle@[qb.len() as int] == i);
                        } else {
                            assert(before[x].idle());
                            let k = choose|k: int| 0 <= k < qb.len() && qb[k] == x as usize;
                            assert(self.idle@[k] == x);
                        }
                    }
                    assert forall|k: int| 0 <= k < self.idle@.len() implies (#[trigger] self.idle@[k])
                        < len && self.machines@[self.idle@[k] as int].idle() by {
                        if k < qb.len() {
                            assert(qb[k] == self.idle@[k]);
                            assert(before[qb[k] as int].idle());
                        }
                    }
                    assert(self.idle@.no_duplicates()) by {
                        assert forall|a: int, b: int|
                            0 <= a < self.idle@.len() && 0 <= b < self.idle@.len() && a != b implies
                            self.idle@[a] != self.idle@[b] by {
                            if a < qb.len() && b < qb.len() {
                                assert(qb[a] == self.idle@[a] && qb[b] == self.idle@[b]);
                            } else if a < qb.len() {
                                assert(qb.contains(qb[a]));
                            } else {
                                assert(qb.contains(qb[b]));
                            }
                        }
                    }
                }
            }
            let ghost mid = self.machines@;
            if m.run_begin != 0 && failed[i] {
                self.machines[i] = MachineState { run_begin: 0, repair_end: c + tr };
                proof {
                    lemma_count_operating_update(mid, i as int, self.machines@[i as int]);
                    assert(failures_upto(ms, failed@, i + 1) == failures_upto(ms, failed@, i as int) + 1);
                }
                missing = missing + 1;
                proof {
                    assert forall|k: int| 0 <= k < self.idle@.len() implies (#[trigger] self.idle@[k])
                        < len && self.machines@[self.idle@[k] as int].idle() by {
                        assert(mid[self.idle@[k] as int].idle());
                    }
                    assert forall|x: int|
                        0 <= x < len && (#[trigger] self.machines@[x]).idle() implies self.idle@.contains(
                        x as usize,
                    ) by {
                        assert(mid[x] == self.machines@[x]);
                    }
                }
            }
            proof {
                assert(repaired_upto(ms, c as int, i + 1) =~= repaired_upto(ms, c as int, i as int)
                    + if repair_done(ms[i as int], c as int) {
                    seq![i]
                } else {
                    seq![]
                });
                assert(self.idle@ =~= q0 + repaired_upto(ms, c as int, i + 1));
            }
            i = i + 1;
        }
        let ghost mid = self.machines@;
        let ghost queue = self.idle@;
        let ghost miss0 = missing as int;
        proof {
            assert(failures_upto(ms, failed@, len as int) <= running0);
            assert forall|j: int| 0 <= j < len && (#[trigger] mid[j]).operating() implies mid[j].run_begin
                <= c by {
                assert(mid[j] == first_pass(ms[j], c as int, tr as int, failed@[j]));
            }
        }
        while missing > 0 && self.idle.len() > 0
            invariant
                self.configs == cfg,
                self.rng == old(self).rng,
                cfg.valid(),
                self.clock == c,
                1 <= c,
                len == ms.len(),
                self.machines@.len() == len,
                0 <= missing <= miss0,
                miss0 <= cfg.n,
                miss0 - missing <= queue.len(),
                self.idle@ == queue.skip(miss0 - missing),
                queue.no_duplicates(),
                forall|j: int|
                    0 <= j < len ==> (#[trigger] self.machines@[j]) == if queue.take(miss0 - missing).contains(
                        j as usize,
                    ) {
                        MachineState { run_begin: c, repair_end: 0 }
                    } else {
                        mid[j]
                    },
                forall|j: int| 0 <= j < len ==> (#[trigger] mid[j]).consistent(),
                forall|j: int| 0 <= j < len && (#[trigger] mid[j]).operating() ==> mid[j].run_begin <= c,
                forall|j: int| 0 <= j < len ==> (#[trigger] self.machines@[j]).consistent(),
                forall|j: int|
                    0 <= j < len && (#[trigger] self.machines@[j]).operating() ==> self.machines@[j].run_begin
                        <= c,
                idle_consistent(self.machines@, self.idle@),
                count_operating(self.machines@) == count_operating(mid) + (miss0 - missing),
            decreases missing,
        {
            let ghost before = self.machines@;
            let ghost qb = self.idle@;
            let ghost p = miss0 - missing;
            let ghost p1 = p + 1;
            let j = self.idle.pop_front().unwrap();
            assert(j == queue[p]);
            assert(j < len && before[j as int].idle());
            self.machines[j] = MachineState { run_begin: c, repair_end: 0 };
            missing = missing - 1;
            proof {
                lemma_count_operating_update(before, j as int, self.machines@[j as int]);
                assert(self.idle@ =~= queue.skip(p + 1));
                assert(!queue.take(p).contains(j)) by {
                    if queue.take(p).contains(j) {
                        let k = choose|k: int| 0 <= k < p && queue.take(p)[k] == j;
                        assert(queue[k] == queue[p]);
                    }
                }
                assert forall|x: int| 0 <= x < len implies (#[trigger] self.machines@[x]) == if queue.take(p1).contains(x as usize) {
                    MachineState { run_begin: c, repair_end: 0 }
                } else {
                    mid[x]
                } by {
                    if x == j {
                        assert(queue.take(p1)[p] == j);
                    } else {
                        if queue.take(p1).contains(x as usize) {
                            let k = choose|k: int| 0 <= k < p1 && queue.take(p1)[k] == x as usize;
                            assert(k != p);
                            assert(queue.take(p)[k] == x);
                        }
                        if queue.take(p).contains(x as usize) {
                            let k = choose|k: int| 0 <= k < p && queue.take(p)[k] == x as usize;
                            assert(queue.take(p1)[k] == x);
                        }
                    }
                }
                assert forall|k: int| 0 <= k < self.idle@.len() implies (#[trigger] self.idle@[k]) < len
                    && self.machines@[self.idle@[k] as int].idle() by {
                    assert(self.idle@[k] == qb[k + 1]);
                    assert(qb[0] == j);
                }
                assert forall|x: int|
                    0 <= x < len && (#[trigger] self.machines@[x]).idle() implies self.idle@.contains(
                    x as usize,
                ) by {
                    assert(x != j);
                    assert(before[x].idle());
                    let k = choose|k: int| 0 <= k < qb.len() && qb[k] == x as usize;
                    assert(k != 0);
                    assert(self.idle@[k - 1] == x);
                }
            }
        }
        self.running = self.configs.n - missing;
        proof {
            let started = miss0 - missing;
            let v = next_view(cfg, old(self).pool(), failed@);
            assert(queue == q0 + repaired_upto(ms, c as int, ms.len() as int));
            assert(self.machines@ =~= v.machines) by {
                assert forall|x: int| 0 <= x < len implies self.machines@[x] == v.machines[x] by {
                    assert(mid[x] == first_pass(ms[x], c as int, tr as int, failed@[x]));
                }
            }
            assert(self.idle@ =~= v.idle);
        }
    }


    /// Draws which machines fail on the coming tick: for each operating
    /// machine in index order, certain failure when its probability is one,
    /// otherwise one draw of the generator against that probability.
    pub fn draw_failures(&mut self) -> (failed: Vec<bool>)
        requires
            old(self).wf(),
            old(self).clock < old(self).configs.tick_limit(),
        ensures
            final(self).pool() == old(self).pool(),
            final(self).configs == old(self).configs,
            failed@ == tick_failures(
                old(self).configs,
                old(self).clock + 1,
                old(self).machines@,
                old(self).rng.seed(),
                old(self).rng.drawn(),
            ),
            final(self).rng.seed() == old(self).rng.seed(),
            final(self).rng.drawn() == old(self).rng.drawn() + draws_used(
                old(self).configs,
                old(self).clock + 1,
                old(self).machines@,
                old(self).machines@.len() as int,
            ),
            failures_allowed(old(self).configs, old(self).clock + 1, old(self).machines@, failed@),
    {
        let c = self.clock + 1;
        let len = self.machines.len();
        let mut failed: Vec<bool> = Vec::with_capacity(len);
        let mut i: usize = 0;
        while i < len
            invariant
                self.pool() == old(self).pool(),
                self.configs == old(self).configs,
                old(self).wf(),
                c == old(self).clock + 1,
                len == self.machines@.len(),
                i <= len,
                failed@.len() == i,
                self.rng.seed() == old(self).rng.seed(),
                self.rng.drawn() == old(self).rng.drawn() + draws_used(self.configs, c as int, self.machines@, i as int),
                forall|j: int|
                    0 <= j < i ==> #[trigger] failed@[j] == fails_at(
                        self.configs,
                        c as int,
                        self.machines@,
                        old(self).rng.seed(),
                        old(self).rng.drawn(),
                        j,
                    ),
                forall|j: int|
                    0 <= j < i ==> {
                        let m = self.machines@[j];
                        let h = hazard_of(self.configs.p0 as int, self.configs.beta as int, c - m.run_begin);
                        &&& (#[trigger] failed@[j]) ==> m.operating()
                        &&& m.operating() && h == ONE ==> failed@[j]
                        &&& m.operating() && h == 0 ==> !failed@[j]
                    },
            decreases len - i,
        {
            let m = self.machines[i];
            let f = if m.run_begin != 0 {
                assert(m.consistent());
                let h = p(&self.configs, c, m.run_begin);
                if h == ONE {
                    true
                } else {
                    let d = next_draw(&mut self.rng);
                    fails_on_draw(h, d)
                }
            } else {
                false
            };
            failed.push(f);
            i = i + 1;
        }
        assert(failed@ =~= tick_failures(
            self.configs,
            c as int,
            self.machines@,
            old(self).rng.seed(),
            old(self).rng.drawn(),
        ));
        failed
    }

    /// Advances the trial by one tick with the failures that the generator
    /// decides, and tells whether fewer than `n` machines now operate.
    pub fn next(&mut self) -> (collapsed: bool)
        requires
            old(self).wf(),
            old(self).clock < old(self).configs.tick_limit(),
        ensures
            final(self).wf(),
            final(self).configs == old(self).configs,
            final(self).pool() == next_view(
                old(self).configs,
                old(self).pool(),
                tick_failures(
                    old(self).configs,
                    old(self).clock + 1,
                    old(self).machines@,
                    old(self).rng.seed(),
                    old(self).rng.drawn(),
                ),
            ),
            final(self).rng.seed() == old(self).rng.seed(),
            final(self).rng.drawn() == old(self).rng.drawn() + draws_used(
                old(self).configs,
                old(self).clock + 1,
                old(self).machines@,
                old(self).machines@.len() as int,
            ),
            exists|failed: Seq<bool>|
                failures_allowed(old(self).configs, old(self).clock + 1, old(self).machines@, failed)
                    && final(self).pool() == next_view(old(self).configs, old(self).pool(), failed),
            collapsed == (final(self).running < final(self).configs.n),
    {
        let failed = self.draw_failures();
        self.apply_tick(&failed);
        self.running < self.configs.n
    }

} // impl SimulationState

} // verus!
