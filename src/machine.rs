//! Machine records and counts over a pool of them.
use vstd::prelude::*;

verus! {

/// One machine's clocks. `run_begin != 0` while it operates, `repair_end != 0`
/// while it is under repair; a machine with both zero is an idle spare.
#[derive(Clone, Copy, Debug, PartialEq, Eq, Structural)]
pub struct MachineState {
    pub run_begin: i64,
    pub repair_end: i64,
}

impl MachineState {
    pub open spec fn operating(self) -> bool {
        self.run_begin != 0
    }

    pub open spec fn under_repair(self) -> bool {
        self.repair_end != 0
    }

    pub open spec fn idle(self) -> bool {
        self.run_begin == 0 && self.repair_end == 0
    }

    /// At most one of the two clocks is set, and neither is negative.
    pub open spec fn consistent(self) -> bool {
        &&& !(self.operating() && self.under_repair())
        &&& 0 <= self.run_begin
        &&& 0 <= self.repair_end
    }
}

pub open spec fn count_operating(ms: Seq<MachineState>) -> nat
    decreases ms.len(),
{
    if ms.len() == 0 {
        0
    } else {
        count_operating(ms.drop_last()) + if ms.last().operating() { 1nat } else { 0nat }
    }
}

pub open spec fn count_idle(ms: Seq<MachineState>) -> nat
    decreases ms.len(),
{
    if ms.len() == 0 {
        0
    } else {
        count_idle(ms.drop_last()) + if ms.last().idle() { 1nat } else { 0nat }
    }
}

pub open spec fn count_under_repair(ms: Seq<MachineState>) -> nat
    decreases ms.len(),
{
    if ms.len() == 0 {
        0
    } else {
        count_under_repair(ms.drop_last()) + if ms.last().under_repair() { 1nat } else { 0nat }
    }
}

/// Every machine of a consistent pool is in exactly one of the three states.
pub proof fn lemma_states_partition(ms: Seq<MachineState>)
    requires
        forall|i: int| 0 <= i < ms.len() ==> (#[trigger] ms[i]).consistent(),
    ensures
        count_operating(ms) + count_idle(ms) + count_under_repair(ms) == ms.len(),
    decreases ms.len(),
{
    if ms.len() > 0 {
        let d = ms.drop_last();
        assert forall|i: int| 0 <= i < d.len() implies (#[trigger] d[i]).consistent() by {
            assert(d[i] == ms[i]);
        }
        lemma_states_partition(d);
        assert(ms.last().consistent());
    }
}

/// Replacing one machine changes the operating count by what that machine
/// contributed before and after.
pub proof fn lemma_count_operating_update(ms: Seq<MachineState>, i: int, m: MachineState)
    requires
        0 <= i < ms.len(),
    ensures
        count_operating(ms.update(i, m)) + (if ms[i].operating() { 1int } else { 0int })
            == count_operating(ms) + (if m.operating() { 1int } else { 0int }),
    decreases ms.len(),
{
    let u = ms.update(i, m);
    if i == ms.len() - 1 {
        assert(u.drop_last() =~= ms.drop_last());
    } else {
        assert(u.drop_last() =~= ms.drop_last().update(i, m));
        lemma_count_operating_update(ms.drop_last(), i, m);
    }
}

} // verus!
