//! The topology that a sample describes: nodes, their cores and how busy each
//! core was.

use crate::proc_info::RawCpuTimes;
use std::collections::HashMap;
use vstd::prelude::*;

verus! {

/// What is left of `current` above `previous`, and nothing when a counter
/// went backwards.
pub open spec fn counter_delta(current: nat, previous: nat) -> nat {
    if current >= previous {
        (current - previous) as nat
    } else {
        0
    }
}

/// The most time that a utilization can span.
pub const MAX_INTERVAL: u128 = 0xffff_ffff_ffff_ffff_ffff;

/// How busy a core was over an interval: `busy` units of time out of `total`,
/// with `busy` never above `total`. An interval of no time counts as idle.
#[derive(Debug, Clone, Copy)]
pub struct Utilization {
    busy: u128,
    total: u128,
}

impl Utilization {
    /// Whether the busy time is no more than the interval, and the interval no
    /// more than `MAX_INTERVAL`. Every value that executable code holds is in
    /// range.
    #[verifier::type_invariant]
    pub closed spec fn in_range(self) -> bool {
        self.busy <= self.total <= MAX_INTERVAL
    }

    /// The busy time of the interval.
    pub closed spec fn busy_ticks(self) -> nat {
        self.busy as nat
    }

    /// The length of the interval.
    pub closed spec fn total_ticks(self) -> nat {
        self.total as nat
    }

    /// The utilization in percent, rounded down.
    pub open spec fn spec_percent(self) -> nat {
        if self.total_ticks() == 0 {
            0
        } else {
            100 * self.busy_ticks() / self.total_ticks()
        }
    }

    /// The utilization of `busy` out of `total`, with `busy` cut down to
    /// `total`.
    pub closed spec fn of(busy: nat, total: nat) -> Utilization {
        Utilization {
            busy: if busy <= total {
                busy as u128
            } else {
                total as u128
            },
            total: total as u128,
        }
    }

    /// The utilization between two samples of one core.
    pub open spec fn between_spec(current: RawCpuTimes, previous: RawCpuTimes) -> Utilization {
        Utilization::of(
            counter_delta(current.spec_busy(), previous.spec_busy()),
            counter_delta(current.spec_total(), previous.spec_total()),
        )
    }

    /// What `of` holds.
    pub proof fn lemma_of(busy: nat, total: nat)
        requires
            total <= MAX_INTERVAL,
        ensures
            Utilization::of(busy, total).in_range(),
            Utilization::of(busy, total).total_ticks() == total,
            Utilization::of(busy, total).busy_ticks() == if busy <= total {
                busy
            } else {
                total
            },
    {
    }

    /// A value in range holds no more busy time than time, and is the value
    /// that `of` gives for its two parts.
    pub proof fn lemma_in_range(self)
        requires
            self.in_range(),
        ensures
            self.busy_ticks() <= self.total_ticks() <= MAX_INTERVAL,
            self == Utilization::of(self.busy_ticks(), self.total_ticks()),
            0 <= self.spec_percent() <= 100,
    {
        if self.total > 0 {
            assert(100 * self.busy_ticks() / self.total_ticks() <= 100) by (nonlinear_arith)
                requires
                    self.busy_ticks() <= self.total_ticks(),
                    self.total_ticks() > 0,
            ;
        }
    }

    /// The utilization of a core that was idle, or not seen before.
    pub fn zero() -> (u: Utilization)
        ensures
            u == Utilization::of(0, 0),
    {
        Utilization { busy: 0, total: 0 }
    }

    /// The utilization of `busy` out of `total`, with `busy` cut down to
    /// `total`.
    pub fn new(busy: u64, total: u64) -> (u: Utilization)
        ensures
            u == Utilization::of(busy as nat, total as nat),
    {
        Utilization {
            busy: if busy <= total {
                busy as u128
            } else {
                total as u128
            },
            total: total as u128,
        }
    }

    /// The utilization between two samples of one core: each difference is
    /// taken as zero where the counter went backwards.
    pub fn between(current: &RawCpuTimes, previous: &RawCpuTimes) -> (u: Utilization)
        ensures
            u == Utilization::between_spec(*current, *previous),
    {
        let total_now: u128 = current.total_wide();
        let total_then: u128 = previous.total_wide();
        let busy_now: u128 = current.busy_wide();
        let busy_then: u128 = previous.busy_wide();
        let total: u128 = if total_now >= total_then {
            total_now - total_then
        } else {
            0
        };
        let busy: u128 = if busy_now >= busy_then {
            busy_now - busy_then
        } else {
            0
        };
        Utilization { busy: if busy <= total { busy } else { total }, total }
    }

    /// The busy time of the interval.
    pub fn busy(&self) -> (ticks: u128)
        ensures
            ticks == self.busy_ticks(),
            ticks <= self.total_ticks(),
    {
        proof {
            use_type_invariant(self);
        }
        self.busy
    }

    /// The length of the interval.
    pub fn total(&self) -> (ticks: u128)
        ensures
            ticks == self.total_ticks(),
            ticks <= MAX_INTERVAL,
    {
        proof {
            use_type_invariant(self);
        }
        self.total
    }

    /// The utilization in percent, rounded down.
    pub fn percent(&self) -> (p: u8)
        ensures
            p == self.spec_percent(),
            p <= 100,
    {
        proof {
            use_type_invariant(self);
            self.lemma_in_range();
        }
        if self.total == 0 {
            0
        } else {
            (100 * self.busy / self.total) as u8
        }
    }

    /// Whether the utilization is above `percent` percent.
    pub fn exceeds(&self, percent: u8) -> (above: bool)
        ensures
            above == (100 * self.busy_ticks() > percent * self.total_ticks()),
    {
        proof {
            use_type_invariant(self);
            assert(percent * self.total <= 255 * MAX_INTERVAL) by (nonlinear_arith)
                requires
                    percent <= 255,
                    self.total <= MAX_INTERVAL,
            ;
        }
        100 * self.busy > (percent as u128) * self.total
    }
}

/// One logical core and how busy it was over the last interval.
#[derive(Debug, Clone, Copy)]
pub struct CpuCore {
    pub id: u32,
    pub utilization: Utilization,
}

impl CpuCore {
    /// The core `id`, not yet sampled.
    pub fn new(id: u32) -> (core: CpuCore)
        ensures
            core.id == id,
            core.utilization == Utilization::of(0, 0),
    {
        CpuCore { id, utilization: Utilization::zero() }
    }
}

impl Default for CpuCore {
    fn default() -> (core: CpuCore)
        ensures
            core.id == 0,
            core.utilization == Utilization::of(0, 0),
    {
        CpuCore::new(0)
    }
}

/// One node of the topology. `cpus` is `None` for a node without cores, such
/// as a memory expander; the memory figures are in mebibytes, as observed.
#[derive(Debug, Clone)]
pub struct NumaNode {
    pub id: u32,
    pub cpus: Option<Vec<CpuCore>>,
    pub total_memory_mb: u64,
    pub used_memory_mb: u64,
}

/// What a `NumaNode` holds, as mathematical values.
pub struct NumaNodeView {
    pub id: u32,
    pub cpus: Option<Seq<CpuCore>>,
    pub total_memory_mb: u64,
    pub used_memory_mb: u64,
}

impl View for NumaNode {
    type V = NumaNodeView;

    open spec fn view(&self) -> NumaNodeView {
        NumaNodeView {
            id: self.id,
            cpus: match self.cpus {
                Some(cores) => Some(cores@),
                None => None,
            },
            total_memory_mb: self.total_memory_mb,
            used_memory_mb: self.used_memory_mb,
        }
    }
}

/// The views of `nodes`, in order.
pub open spec fn node_views(nodes: Seq<NumaNode>) -> Seq<NumaNodeView> {
    Seq::new(nodes.len(), |i: int| nodes[i]@)
}

/// The core `core` after a sample: a core that the sample `current` holds is
/// as busy as the sample and the one before it in `previous` say, and idle
/// where there is none before it; a core that the sample leaves out stays as
/// it is.
pub open spec fn refreshed_core(
    core: CpuCore,
    previous: Map<u32, RawCpuTimes>,
    current: Map<u32, RawCpuTimes>,
) -> CpuCore {
    if current.contains_key(core.id) {
        CpuCore {
            id: core.id,
            utilization: if previous.contains_key(core.id) {
                Utilization::between_spec(current[core.id], previous[core.id])
            } else {
                Utilization::of(0, 0)
            },
        }
    } else {
        core
    }
}

/// Each of `cores` after a sample.
pub open spec fn refreshed_cores(
    cores: Seq<CpuCore>,
    previous: Map<u32, RawCpuTimes>,
    current: Map<u32, RawCpuTimes>,
) -> Seq<CpuCore> {
    Seq::new(cores.len(), |i: int| refreshed_core(cores[i], previous, current))
}

/// The node `node` after a sample: its cores are refreshed, the rest stays.
pub open spec fn refreshed_node(
    node: NumaNodeView,
    previous: Map<u32, RawCpuTimes>,
    current: Map<u32, RawCpuTimes>,
) -> NumaNodeView {
    NumaNodeView {
        id: node.id,
        cpus: match node.cpus {
            Some(cores) => Some(refreshed_cores(cores, previous, current)),
            None => None,
        },
        total_memory_mb: node.total_memory_mb,
        used_memory_mb: node.used_memory_mb,
    }
}

/// Each of `nodes` after a sample.
pub open spec fn refreshed_nodes(
    nodes: Seq<NumaNodeView>,
    previous: Map<u32, RawCpuTimes>,
    current: Map<u32, RawCpuTimes>,
) -> Seq<NumaNodeView> {
    Seq::new(nodes.len(), |i: int| refreshed_node(nodes[i], previous, current))
}

impl CpuCore {
    /// Brings the utilization up to the sample `current`, measured against
    /// the sample before it in `previous`.
    pub fn refresh(
        &mut self,
        previous: &HashMap<u32, RawCpuTimes>,
        current: &HashMap<u32, RawCpuTimes>,
    )
        ensures
            *final(self) == refreshed_core(*old(self), previous@, current@),
    {
        match current.get(&self.id) {
            Some(now) => {
                self.utilization = match previous.get(&self.id) {
                    Some(then) => Utilization::between(now, then),
                    None => Utilization::zero(),
                };
            },
            None => {},
        }
    }
}

impl NumaNode {
    /// Brings the utilization of every core of the node up to the sample
    /// `current`.
    pub fn refresh(
        &mut self,
        previous: &HashMap<u32, RawCpuTimes>,
        current: &HashMap<u32, RawCpuTimes>,
    )
        ensures
            final(self)@ == refreshed_node(old(self)@, previous@, current@),
    {
        match &mut self.cpus {
            Some(cores) => {
                let ghost before = cores@;
                let mut i: usize = 0;
                while i < cores.len()
                    invariant
                        i <= cores@.len(),
                        cores@.len() == before.len(),
                        forall|j: int|
                            0 <= j < i ==> cores@[j] == refreshed_core(
                                before[j],
                                previous@,
                                current@,
                            ),
                        forall|j: int| i <= j < cores@.len() ==> cores@[j] == before[j],
                    decreases cores@.len() - i,
                {
                    cores[i].refresh(previous, current);
                    i += 1;
                }
                assert(cores@ =~= refreshed_cores(before, previous@, current@));
            },
            None => {},
        }
    }
}

/// The smaller of two numbers.
pub open spec fn smaller(a: nat, b: nat) -> nat {
    if a <= b {
        a
    } else {
        b
    }
}

/// Between any two samples of a core, the utilization spans the time that
/// the total counter advanced by, holds the time that the busy counter
/// advanced by, cut down to that span, and so lies between nothing and the
/// whole of the interval: between 0 and 100 percent.
pub proof fn lemma_between_in_range(current: RawCpuTimes, previous: RawCpuTimes)
    ensures
        Utilization::between_spec(current, previous).in_range(),
        Utilization::between_spec(current, previous).total_ticks() == counter_delta(
            current.spec_total(),
            previous.spec_total(),
        ),
        Utilization::between_spec(current, previous).busy_ticks() == smaller(
            counter_delta(current.spec_busy(), previous.spec_busy()),
            counter_delta(current.spec_total(), previous.spec_total()),
        ),
        0 <= Utilization::between_spec(current, previous).busy_ticks()
            <= Utilization::between_spec(current, previous).total_ticks(),
        0 <= Utilization::between_spec(current, previous).spec_percent() <= 100,
{
    let busy = counter_delta(current.spec_busy(), previous.spec_busy());
    let total = counter_delta(current.spec_total(), previous.spec_total());
    Utilization::lemma_of(busy, total);
    Utilization::between_spec(current, previous).lemma_in_range();
}

/// Where the total counter did not advance between two samples, the
/// utilization is that of an idle core: nothing is divided by zero.
pub proof fn lemma_empty_interval_is_idle(current: RawCpuTimes, previous: RawCpuTimes)
    requires
        counter_delta(current.spec_total(), previous.spec_total()) == 0,
    ensures
        Utilization::between_spec(current, previous) == Utilization::of(0, 0),
        Utilization::between_spec(current, previous).busy_ticks() == 0,
        Utilization::between_spec(current, previous).spec_percent() == 0,
{
    let busy = counter_delta(current.spec_busy(), previous.spec_busy());
    Utilization::lemma_of(busy, 0);
    Utilization::lemma_of(0, 0);
    Utilization::between_spec(current, previous).lemma_in_range();
    Utilization::of(0, 0).lemma_in_range();
}

/// Where a counter went backwards between two samples, as after a reset, it
/// counts as not having advanced: the difference is zero, never negative and
/// never wrapped around.
pub proof fn lemma_counter_reset_counts_as_zero(current: RawCpuTimes, previous: RawCpuTimes)
    ensures
        current.spec_total() < previous.spec_total() ==> {
            &&& counter_delta(current.spec_total(), previous.spec_total()) == 0
            &&& Utilization::between_spec(current, previous) == Utilization::of(0, 0)
            &&& Utilization::between_spec(current, previous).spec_percent() == 0
        },
        current.spec_busy() < previous.spec_busy() ==> {
            &&& counter_delta(current.spec_busy(), previous.spec_busy()) == 0
            &&& Utilization::between_spec(current, previous).busy_ticks() == 0
            &&& Utilization::between_spec(current, previous).spec_percent() == 0
        },
{
    lemma_between_in_range(current, previous);
    if current.spec_total() < previous.spec_total() {
        lemma_empty_interval_is_idle(current, previous);
    }
    if current.spec_busy() < previous.spec_busy() {
        let u = Utilization::between_spec(current, previous);
        if u.total_ticks() > 0 {
            let total = u.total_ticks();
            assert(100 * 0nat / total == 0) by (nonlinear_arith)
                requires
                    total > 0,
            ;
        }
    }
}

/// A core that is sampled for the first time counts as idle, whatever its
/// counters hold.
pub proof fn lemma_first_sample_is_idle(
    core: CpuCore,
    previous: Map<u32, RawCpuTimes>,
    current: Map<u32, RawCpuTimes>,
)
    requires
        current.contains_key(core.id),
        !previous.contains_key(core.id),
    ensures
        refreshed_core(core, previous, current).id == core.id,
        refreshed_core(core, previous, current).utilization == Utilization::of(0, 0),
        refreshed_core(core, previous, current).utilization.busy_ticks() == 0,
        refreshed_core(core, previous, current).utilization.spec_percent() == 0,
{
    Utilization::lemma_of(0, 0);
    Utilization::of(0, 0).lemma_in_range();
}

/// A core that a sample leaves out keeps the utilization that it had.
pub proof fn lemma_unsampled_core_stays(
    core: CpuCore,
    previous: Map<u32, RawCpuTimes>,
    current: Map<u32, RawCpuTimes>,
)
    requires
        !current.contains_key(core.id),
    ensures
        refreshed_core(core, previous, current) == core,
{
}

} // verus!
