//! The state of the monitor: the last topology and sample, the screen cells
//! that stand for cores, and what is shown about a picked core.

use crate::cpu_list::members;
use crate::numa_node::{node_views, refreshed_node, refreshed_nodes, NumaNode, NumaNodeView};
use crate::proc_info::{
    get_processes_with_cpu_affinity, parse_proc_stat_for_cores, process_entry_views,
    process_views, query_result, stat_samples, AffinityMode, ProcessEntry, ProcessInfo,
    ProcessInfoView, RawCpuTimes,
};
use crate::sys_numa_info::{
    entry_views, get_all_present_cpu_indices, get_numa_node_data, topology, MemAccounting,
    NodeEntry,
};
use crate::text::lines;
use std::collections::HashMap;
use vstd::prelude::*;

verus! {

/// A rectangle of screen cells: the cell of its upper left corner, and how
/// many cells it spans each way.
#[derive(Debug, Clone, Copy, PartialEq, Eq, Structural)]
pub struct Rect {
    pub x: u16,
    pub y: u16,
    pub width: u16,
    pub height: u16,
}

impl Rect {
    /// Whether the cell in column `x` and row `y` lies in the rectangle.
    pub open spec fn spec_contains(self, x: u16, y: u16) -> bool {
        &&& self.x <= x < self.x + self.width
        &&& self.y <= y < self.y + self.height
    }

    /// Whether the cell in column `x` and row `y` lies in the rectangle.
    pub fn contains(&self, x: u16, y: u16) -> (inside: bool)
        ensures
            inside == self.spec_contains(x, y),
    {
        x >= self.x && (x as u32) < self.x as u32 + self.width as u32 && y >= self.y && (y as u32)
            < self.y as u32 + self.height as u32
    }
}

/// The screen cells that stand for one core.
#[derive(Debug, Clone, Copy)]
pub struct CpuCoreArea {
    pub cpu_id: u32,
    pub area: Rect,
}

/// The core of the first of `areas` that holds the cell in column `x` and
/// row `y`, if one does.
pub open spec fn resolve(areas: Seq<CpuCoreArea>, x: u16, y: u16) -> Option<u32>
    decreases areas.len(),
{
    if areas.len() == 0 {
        None
    } else if areas[0].area.spec_contains(x, y) {
        Some(areas[0].cpu_id)
    } else {
        resolve(areas.drop_first(), x, y)
    }
}

/// A cell resolves to nothing exactly when no area holds it.
pub proof fn lemma_resolve_none(areas: Seq<CpuCoreArea>, x: u16, y: u16)
    ensures
        resolve(areas, x, y) is None <==> forall|i: int|
            0 <= i < areas.len() ==> !(#[trigger] areas[i]).area.spec_contains(x, y),
    decreases areas.len(),
{
    if areas.len() > 0 {
        let rest = areas.drop_first();
        lemma_resolve_none(rest, x, y);
        if resolve(areas, x, y) is None {
            assert forall|i: int| 0 <= i < areas.len() implies !(
            #[trigger] areas[i]).area.spec_contains(x, y) by {
                if i > 0 {
                    assert(areas[i] == rest[i - 1]);
                }
            }
        } else if !areas[0].area.spec_contains(x, y) {
            let i = choose|i: int|
                0 <= i < rest.len() && (#[trigger] rest[i]).area.spec_contains(x, y);
            assert(areas[i + 1] == rest[i]);
        }
    }
}

/// A cell that exactly one area holds resolves to the core of that area.
pub proof fn lemma_resolve_unique(areas: Seq<CpuCoreArea>, x: u16, y: u16, k: int)
    requires
        0 <= k < areas.len(),
        areas[k].area.spec_contains(x, y),
        forall|i: int|
            0 <= i < areas.len() && i != k ==> !(#[trigger] areas[i]).area.spec_contains(x, y),
    ensures
        resolve(areas, x, y) == Some(areas[k].cpu_id),
    decreases areas.len(),
{
    if k > 0 {
        let rest = areas.drop_first();
        assert(!areas[0].area.spec_contains(x, y));
        assert(rest[k - 1] == areas[k]);
        assert forall|i: int| 0 <= i < rest.len() && i != k - 1 implies !(
        #[trigger] rest[i]).area.spec_contains(x, y) by {
            assert(rest[i] == areas[i + 1]);
        }
        lemma_resolve_unique(rest, x, y, k - 1);
    }
}

/// A cell that resolves to a core lies in an area of that core, and in no
/// area before that one.
pub proof fn lemma_resolve_some(areas: Seq<CpuCoreArea>, x: u16, y: u16)
    requires
        resolve(areas, x, y) is Some,
    ensures
        exists|k: int|
            {
                &&& 0 <= k < areas.len()
                &&& (#[trigger] areas[k]).area.spec_contains(x, y)
                &&& areas[k].cpu_id == resolve(areas, x, y).unwrap()
                &&& forall|i: int|
                    0 <= i < k ==> !(#[trigger] areas[i]).area.spec_contains(x, y)
            },
    decreases areas.len(),
{
    if areas[0].area.spec_contains(x, y) {
        assert(areas[0].cpu_id == resolve(areas, x, y).unwrap());
    } else {
        let rest = areas.drop_first();
        lemma_resolve_some(rest, x, y);
        let k0 = choose|k: int|
            {
                &&& 0 <= k < rest.len()
                &&& (#[trigger] rest[k]).area.spec_contains(x, y)
                &&& rest[k].cpu_id == resolve(rest, x, y).unwrap()
                &&& forall|i: int| 0 <= i < k ==> !(#[trigger] rest[i]).area.spec_contains(x, y)
            };
        let k = k0 + 1;
        assert(areas[k] == rest[k0]);
        assert forall|i: int| 0 <= i < k implies !(#[trigger] areas[i]).area.spec_contains(
            x,
            y,
        ) by {
            if i > 0 {
                assert(areas[i] == rest[i - 1]);
            }
        }
    }
}

/// What is shown about a picked core.
#[derive(Debug)]
pub struct PopupState {
    pub show: bool,
    pub cpu_core_id: u32,
    pub processes: Vec<ProcessInfo>,
}

/// The state of the monitor.
pub struct App {
    pub numa_nodes: Vec<NumaNode>,
    pub prev_cpu_times: HashMap<u32, RawCpuTimes>,
    pub popup_state: PopupState,
    pub cpu_core_areas: Vec<CpuCoreArea>,
    pub should_exit: bool,
}

/// The nodes after a tick: those of the new topology where one was found,
/// else those from before, refreshed by the new sample where one was read.
pub open spec fn nodes_after_tick(
    before: Seq<NumaNodeView>,
    found: Option<Seq<NumaNodeView>>,
    previous: Map<u32, RawCpuTimes>,
    sample: Option<Map<u32, RawCpuTimes>>,
) -> Seq<NumaNodeView> {
    let base = match found {
        Some(nodes) => nodes,
        None => before,
    };
    match sample {
        Some(current) => refreshed_nodes(base, previous, current),
        None => base,
    }
}

/// The topology that a tick found: that of the entries of the directory of
/// nodes, where the directory could be read.
pub open spec fn found_topology(entries: Option<&Vec<NodeEntry>>, mode: MemAccounting) -> Option<
    Seq<NumaNodeView>,
> {
    match entries {
        Some(list) => Some(topology(entry_views(list@), mode)),
        None => None,
    }
}

/// The sample that a tick read: what the statistics table `stat` gives for
/// the cores that the list `present` names, where both could be read.
pub open spec fn read_sample(present: Option<&str>, stat: Option<&str>) -> Option<
    Map<u32, RawCpuTimes>,
> {
    match (present, stat) {
        (Some(list), Some(table)) => Some(stat_samples(lines(table@), members(list@))),
        _ => None,
    }
}

/// The processes to show for the core `cpu`: those that a query over the
/// entries of the process table returns, and none where the table could not
/// be read.
pub open spec fn shown_processes(
    entries: Option<&Vec<ProcessEntry>>,
    cpu: u32,
    mode: AffinityMode,
) -> Seq<ProcessInfoView> {
    match entries {
        Some(list) => query_result(process_entry_views(list@), cpu, mode),
        None => Seq::empty(),
    }
}

impl App {
    /// A monitor that has seen nothing yet.
    pub fn new() -> (app: App)
        ensures
            app.numa_nodes@.len() == 0,
            app.prev_cpu_times@ == Map::<u32, RawCpuTimes>::empty(),
            !app.popup_state.show,
            app.popup_state.cpu_core_id == 0,
            app.popup_state.processes@.len() == 0,
            app.cpu_core_areas@.len() == 0,
            !app.should_exit,
    {
        App {
            numa_nodes: Vec::new(),
            prev_cpu_times: HashMap::new(),
            popup_state: PopupState { show: false, cpu_core_id: 0, processes: Vec::new() },
            cpu_core_areas: Vec::new(),
            should_exit: false,
        }
    }

    /// Takes in what one tick found.
    ///
    /// `found` is the new topology, or `None` where it could not be
    /// discovered: then the nodes from before stay. `sample` holds the
    /// counters of this tick, or is `None` where they could not be read: then
    /// no utilization changes and the sample from before is kept for the next
    /// tick. A core that the sample leaves out stays as its node holds it:
    /// idle in a topology that was just found, as it was in one that stayed.
    pub fn apply_tick(
        &mut self,
        found: Option<Vec<NumaNode>>,
        sample: Option<HashMap<u32, RawCpuTimes>>,
    )
        ensures
            node_views(final(self).numa_nodes@) == nodes_after_tick(
                node_views(old(self).numa_nodes@),
                match found {
                    Some(nodes) => Some(node_views(nodes@)),
                    None => None,
                },
                old(self).prev_cpu_times@,
                match sample {
                    Some(current) => Some(current@),
                    None => None,
                },
            ),
            final(self).prev_cpu_times@ == match sample {
                Some(current) => current@,
                None => old(self).prev_cpu_times@,
            },
            final(self).popup_state == old(self).popup_state,
            final(self).cpu_core_areas == old(self).cpu_core_areas,
            final(self).should_exit == old(self).should_exit,
    {
        match found {
            Some(nodes) => {
                self.numa_nodes = nodes;
            },
            None => {},
        }
        match sample {
            Some(current) => {
                let ghost base = self.numa_nodes@;
                let mut n: usize = 0;
                while n < self.numa_nodes.len()
                    invariant
                        n <= self.numa_nodes@.len(),
                        self.numa_nodes@.len() == base.len(),
                        self.prev_cpu_times == old(self).prev_cpu_times,
                        self.popup_state == old(self).popup_state,
                        self.cpu_core_areas == old(self).cpu_core_areas,
                        self.should_exit == old(self).should_exit,
                        forall|j: int|
                            0 <= j < n ==> (#[trigger] self.numa_nodes@[j])@ == refreshed_node(
                                base[j]@,
                                self.prev_cpu_times@,
                                current@,
                            ),
                        forall|j: int| n <= j < base.len() ==> self.numa_nodes@[j] == base[j],
                    decreases self.numa_nodes@.len() - n,
                {
                    self.numa_nodes[n].refresh(&self.prev_cpu_times, &current);
                    n += 1;
                }
                assert(node_views(self.numa_nodes@) =~= refreshed_nodes(
                    node_views(base),
                    self.prev_cpu_times@,
                    current@,
                ));
                self.prev_cpu_times = current;
            },
            None => {},
        }
    }

    /// One tick: discovers the topology, samples the cores that are present
    /// and works out how busy each has been since the tick before.
    ///
    /// `entries` are the entries of the directory of nodes, `present` is the
    /// system's list of the cores that are present and `stat` the statistics
    /// table; each is `None` where it could not be read.
    pub fn update(
        &mut self,
        entries: Option<&Vec<NodeEntry>>,
        present: Option<&str>,
        stat: Option<&str>,
        mode: MemAccounting,
    )
        ensures
            node_views(final(self).numa_nodes@) == nodes_after_tick(
                node_views(old(self).numa_nodes@),
                found_topology(entries, mode),
                old(self).prev_cpu_times@,
                read_sample(present, stat),
            ),
            final(self).prev_cpu_times@ == match read_sample(present, stat) {
                Some(current) => current,
                None => old(self).prev_cpu_times@,
            },
            final(self).popup_state == old(self).popup_state,
            final(self).cpu_core_areas == old(self).cpu_core_areas,
            final(self).should_exit == old(self).should_exit,
    {
        let found: Option<Vec<NumaNode>> = match entries {
            Some(list) => Some(get_numa_node_data(list, mode)),
            None => None,
        };
        let sample: Option<HashMap<u32, RawCpuTimes>> = match (present, stat) {
            (Some(list), Some(table)) => Some(
                parse_proc_stat_for_cores(table, get_all_present_cpu_indices(list)),
            ),
            _ => None,
        };
        self.apply_tick(found, sample);
    }

    /// Shows the core `cpu_core_id` and the processes bound to it among the
    /// entries of the process table; where the table could not be read, no
    /// processes.
    pub fn show_cpu_popup(
        &mut self,
        cpu_core_id: u32,
        entries: Option<&Vec<ProcessEntry>>,
        mode: AffinityMode,
    )
        ensures
            final(self).popup_state.show,
            final(self).popup_state.cpu_core_id == cpu_core_id,
            process_views(final(self).popup_state.processes@) == shown_processes(
                entries,
                cpu_core_id,
                mode,
            ),
            final(self).numa_nodes == old(self).numa_nodes,
            final(self).prev_cpu_times == old(self).prev_cpu_times,
            final(self).cpu_core_areas == old(self).cpu_core_areas,
            final(self).should_exit == old(self).should_exit,
    {
        self.popup_state.show = true;
        self.popup_state.cpu_core_id = cpu_core_id;
        match entries {
            Some(list) => {
                self.popup_state.processes = get_processes_with_cpu_affinity(
                    cpu_core_id,
                    list,
                    mode,
                );
            },
            None => {
                self.popup_state.processes.clear();
                assert(process_views(self.popup_state.processes@) =~= Seq::<
                    ProcessInfoView,
                >::empty());
            },
        }
    }

    /// Asks the monitor to stop.
    pub fn exit(&mut self)
        ensures
            final(self).should_exit,
            final(self).numa_nodes == old(self).numa_nodes,
            final(self).prev_cpu_times == old(self).prev_cpu_times,
            final(self).popup_state == old(self).popup_state,
            final(self).cpu_core_areas == old(self).cpu_core_areas,
    {
        self.should_exit = true;
    }

    /// Closes what is shown about a core, and forgets its processes.
    pub fn hide_popup(&mut self)
        ensures
            !final(self).popup_state.show,
            final(self).popup_state.processes@.len() == 0,
            final(self).popup_state.cpu_core_id == old(self).popup_state.cpu_core_id,
            final(self).numa_nodes == old(self).numa_nodes,
            final(self).prev_cpu_times == old(self).prev_cpu_times,
            final(self).cpu_core_areas == old(self).cpu_core_areas,
            final(self).should_exit == old(self).should_exit,
    {
        self.popup_state.show = false;
        self.popup_state.processes.clear();
    }

    /// The core whose cells hold the cell in column `x` and row `y`: the
    /// core to show the processes of, if there is one.
    pub fn handle_mouse_click(&self, x: u16, y: u16) -> (picked: Option<u32>)
        ensures
            picked == resolve(self.cpu_core_areas@, x, y),
    {
        let mut i: usize = 0;
        assert(self.cpu_core_areas@.skip(0) == self.cpu_core_areas@);
        while i < self.cpu_core_areas.len()
            invariant
                i <= self.cpu_core_areas@.len(),
                resolve(self.cpu_core_areas@, x, y) == resolve(
                    self.cpu_core_areas@.skip(i as int),
                    x,
                    y,
                ),
            decreases self.cpu_core_areas@.len() - i,
        {
            let ghost rest = self.cpu_core_areas@.skip(i as int);
            assert(rest[0] == self.cpu_core_areas@[i as int]);
            assert(rest.drop_first() == self.cpu_core_areas@.skip(i + 1));
            if self.cpu_core_areas[i].area.contains(x, y) {
                return Some(self.cpu_core_areas[i].cpu_id);
            }
            i += 1;
        }
        None
    }

    /// Forgets the cells of every core.
    pub fn clear_cpu_core_areas(&mut self)
        ensures
            final(self).cpu_core_areas@.len() == 0,
            forall|x: u16, y: u16| resolve(final(self).cpu_core_areas@, x, y) is None,
            final(self).numa_nodes == old(self).numa_nodes,
            final(self).prev_cpu_times == old(self).prev_cpu_times,
            final(self).popup_state == old(self).popup_state,
            final(self).should_exit == old(self).should_exit,
    {
        self.cpu_core_areas.clear();
    }

    /// Lets the cells `area` stand for the core `cpu_id`, behind the areas
    /// that are there already.
    pub fn add_cpu_core_area(&mut self, cpu_id: u32, area: Rect)
        ensures
            final(self).cpu_core_areas@ == old(self).cpu_core_areas@.push(
                CpuCoreArea { cpu_id, area },
            ),
            final(self).numa_nodes == old(self).numa_nodes,
            final(self).prev_cpu_times == old(self).prev_cpu_times,
            final(self).popup_state == old(self).popup_state,
            final(self).should_exit == old(self).should_exit,
    {
        self.cpu_core_areas.push(CpuCoreArea { cpu_id, area });
    }
}

} // verus!
