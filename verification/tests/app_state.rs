use numatop::app::App;
use numatop::numa_node::{CpuCore, NumaNode, Utilization};
use numatop::proc_info::{AffinityMode, ProcessEntry, RawCpuTimes};
use numatop::sys_numa_info::{MemAccounting, NodeEntry};
use std::collections::HashMap;

fn node_entries() -> Vec<NodeEntry> {
    vec![
        NodeEntry {
            name: "node1".to_string(),
            is_dir: true,
            meminfo: Some("MemTotal: 16777216\nMemFree: 8388608\n".to_string()),
            cpulist: None,
        },
        NodeEntry {
            name: "node0".to_string(),
            is_dir: true,
            meminfo: Some("MemTotal: 16777216\nMemFree: 8388608\n".to_string()),
            cpulist: Some("0-1\n".to_string()),
        },
    ]
}

fn percent(u: &Utilization) -> f64 {
    if u.total() == 0 {
        0.0
    } else {
        (u.busy() as f64 / u.total() as f64) * 100.0
    }
}

fn core_at(app: &App, node: usize, index: usize) -> CpuCore {
    app.numa_nodes[node].cpus.as_ref().unwrap()[index]
}

#[test]
fn a_new_monitor_has_seen_nothing() {
    let app = App::new();
    assert!(app.numa_nodes.is_empty());
    assert!(app.prev_cpu_times.is_empty());
    assert!(!app.popup_state.show);
    assert_eq!(app.popup_state.cpu_core_id, 0);
    assert!(app.popup_state.processes.is_empty());
    assert!(app.cpu_core_areas.is_empty());
    assert!(!app.should_exit);
}

#[test]
fn two_ticks_over_two_nodes() {
    let entries = node_entries();
    let mut app = App::new();

    let first = "cpu  20 0 0 80 0 0 0 0 0 0\n\
cpu0 10 0 0 40 0 0 0 0 0 0\n\
cpu1 10 0 0 40 0 0 0 0 0 0\n";
    app.update(Some(&entries), Some("0-1\n"), Some(first), MemAccounting::Reclaimable);
    assert_eq!(app.numa_nodes.len(), 2);
    assert_eq!(app.numa_nodes[0].id, 0);
    assert_eq!(app.numa_nodes[1].id, 1);
    assert!(app.numa_nodes[1].cpus.is_none());
    assert_eq!(percent(&core_at(&app, 0, 0).utilization), 0.0);
    assert_eq!(percent(&core_at(&app, 0, 1).utilization), 0.0);
    let node = &app.numa_nodes[0];
    assert_eq!((node.total_memory_mb, node.used_memory_mb), (16384, 8192));
    assert_eq!(app.prev_cpu_times.len(), 2);

    // core 0: busy advances by 50, the total by 200; core 1 is not in the sample
    let second = "cpu  70 0 0 230 0 0 0 0 0 0\ncpu0 60 0 0 190 0 0 0 0 0 0\n";
    app.update(Some(&entries), Some("0-1\n"), Some(second), MemAccounting::Reclaimable);
    let c0 = core_at(&app, 0, 0);
    assert_eq!((c0.utilization.busy(), c0.utilization.total()), (50, 200));
    assert_eq!(percent(&c0.utilization), 25.0);
    assert_eq!(c0.utilization.percent(), 25);
    assert_eq!(percent(&core_at(&app, 0, 1).utilization), 0.0);
    assert_eq!(app.prev_cpu_times.len(), 1);
    assert!(app.prev_cpu_times.contains_key(&0));
}

#[test]
fn a_core_that_returns_after_a_gap_starts_idle() {
    let entries = node_entries();
    let mut app = App::new();
    let both = "cpu0 10 0 0 40 0 0 0 0\ncpu1 10 0 0 40 0 0 0 0\n";
    let only0 = "cpu0 60 0 0 190 0 0 0 0\n";
    let later = "cpu0 60 0 0 290 0 0 0 0\ncpu1 90 0 0 60 0 0 0 0\n";
    app.update(Some(&entries), Some("0-1"), Some(both), MemAccounting::FreeOnly);
    app.update(Some(&entries), Some("0-1"), Some(only0), MemAccounting::FreeOnly);
    app.update(Some(&entries), Some("0-1"), Some(later), MemAccounting::FreeOnly);
    let c0 = core_at(&app, 0, 0);
    assert_eq!((c0.utilization.busy(), c0.utilization.total()), (0, 100));
    let c1 = core_at(&app, 0, 1);
    assert_eq!((c1.utilization.busy(), c1.utilization.total()), (0, 0));
}

#[test]
fn without_a_topology_the_old_nodes_stay_and_are_refreshed() {
    let entries = node_entries();
    let mut app = App::new();
    let mode = MemAccounting::FreeOnly;
    let first = "cpu0 0 0 0 0 0 0 0 0\ncpu1 0 0 0 0 0 0 0 0\n";
    let second = "cpu0 30 0 0 10 0 0 0 0\ncpu1 10 0 0 30 0 0 0 0\n";
    app.update(Some(&entries), Some("0-1"), Some(first), mode);
    app.update(None, Some("0-1"), Some(second), mode);
    assert_eq!(app.numa_nodes.len(), 2);
    assert_eq!(core_at(&app, 0, 0).utilization.percent(), 75);
    assert_eq!(core_at(&app, 0, 1).utilization.percent(), 25);
    // a core left out of the next sample keeps what it had, as the nodes stay
    app.update(None, Some("0-1"), Some("cpu0 30 0 0 50 0 0 0 0\n"), mode);
    assert_eq!(core_at(&app, 0, 0).utilization.percent(), 0);
    assert_eq!(core_at(&app, 0, 1).utilization.percent(), 25);
}

#[test]
fn without_a_sample_nothing_is_refreshed_and_the_old_sample_is_kept() {
    let entries = node_entries();
    let mut app = App::new();
    let mode = MemAccounting::FreeOnly;
    app.update(Some(&entries), Some("0-1"), Some("cpu0 0 0 0 0 0 0 0 0\n"), mode);
    app.update(None, Some("0-1"), Some("cpu0 30 0 0 10 0 0 0 0\n"), mode);
    assert_eq!(core_at(&app, 0, 0).utilization.percent(), 75);
    app.update(None, None, Some("cpu0 90 0 0 90 0 0 0 0\n"), mode);
    app.update(None, Some("0-1"), None, mode);
    app.update(None, None, None, mode);
    assert_eq!(core_at(&app, 0, 0).utilization.percent(), 75);
    assert_eq!(app.prev_cpu_times[&0].user, 30);
    app.update(None, Some("0-1"), Some("cpu0 40 0 0 40 0 0 0 0\n"), mode);
    assert_eq!(core_at(&app, 0, 0).utilization.percent(), 25);
}

#[test]
fn only_present_cores_are_sampled() {
    let entries = node_entries();
    let mut app = App::new();
    let table = "cpu0 0 0 0 0 0 0 0 0\ncpu1 0 0 0 0 0 0 0 0\n";
    app.update(Some(&entries), Some("0"), Some(table), MemAccounting::FreeOnly);
    assert_eq!(app.prev_cpu_times.len(), 1);
    assert!(app.prev_cpu_times.contains_key(&0));
}

#[test]
fn apply_tick_takes_parsed_values() {
    let mut app = App::new();
    let nodes = vec![NumaNode {
        id: 0,
        cpus: Some(vec![CpuCore::new(0)]),
        total_memory_mb: 1,
        used_memory_mb: 1,
    }];
    let times = |user: u64, idle: u64| RawCpuTimes { user, idle, ..RawCpuTimes::default() };
    let mut first = HashMap::new();
    first.insert(0, times(10, 10));
    app.apply_tick(Some(nodes), Some(first));
    assert_eq!(core_at(&app, 0, 0).utilization.total(), 0);
    let mut second = HashMap::new();
    second.insert(0, times(20, 40));
    app.apply_tick(None, Some(second));
    assert_eq!(core_at(&app, 0, 0).utilization.percent(), 25);
}

#[test]
fn the_popup_shows_the_processes_of_the_picked_core() {
    let entries = vec![
        ProcessEntry {
            name: "12".to_string(),
            status: Some("Cpus_allowed_list:\t0-3\n".to_string()),
            stat: None,
            comm: Some("sshd\n".to_string()),
        },
        ProcessEntry {
            name: "40".to_string(),
            status: Some("Cpus_allowed_list:\t2\n".to_string()),
            stat: None,
            comm: Some("bash\n".to_string()),
        },
    ];
    let mut app = App::new();
    app.show_cpu_popup(2, Some(&entries), AffinityMode::Allowed);
    assert!(app.popup_state.show);
    assert_eq!(app.popup_state.cpu_core_id, 2);
    let shown: Vec<(u32, &str)> =
        app.popup_state.processes.iter().map(|p| (p.pid, p.name.as_str())).collect();
    assert_eq!(shown, vec![(40, "bash"), (12, "sshd")]);

    app.show_cpu_popup(9, Some(&entries), AffinityMode::Allowed);
    assert!(app.popup_state.show);
    assert_eq!(app.popup_state.cpu_core_id, 9);
    assert!(app.popup_state.processes.is_empty());

    app.show_cpu_popup(2, Some(&entries), AffinityMode::Allowed);
    app.show_cpu_popup(1, None, AffinityMode::Allowed);
    assert!(app.popup_state.show);
    assert_eq!(app.popup_state.cpu_core_id, 1);
    assert!(app.popup_state.processes.is_empty());
}

#[test]
fn hiding_the_popup_forgets_its_processes() {
    let entries = vec![ProcessEntry {
        name: "12".to_string(),
        status: None,
        stat: None,
        comm: Some("sshd\n".to_string()),
    }];
    let mut app = App::new();
    app.show_cpu_popup(2, Some(&entries), AffinityMode::Allowed);
    assert_eq!(app.popup_state.processes.len(), 1);
    app.hide_popup();
    assert!(!app.popup_state.show);
    assert!(app.popup_state.processes.is_empty());
    assert_eq!(app.popup_state.cpu_core_id, 2);
}

#[test]
fn exit_asks_the_monitor_to_stop() {
    let mut app = App::new();
    app.exit();
    assert!(app.should_exit);
}
