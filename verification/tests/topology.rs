use numatop::sys_numa_info::{
    get_numa_node_data, parse_node_name, read_node, MemAccounting, NodeEntry,
};

fn entry(name: &str, is_dir: bool, meminfo: Option<&str>, cpulist: Option<&str>) -> NodeEntry {
    NodeEntry {
        name: name.to_string(),
        is_dir,
        meminfo: meminfo.map(str::to_string),
        cpulist: cpulist.map(str::to_string),
    }
}

const MEM: &str = "Node 0 MemTotal: 4096 kB\nNode 0 MemFree: 1024 kB\nNode 0 MemUsed: 3072 kB\n";

#[test]
fn a_node_directory_is_node_and_a_number() {
    assert_eq!(parse_node_name("node0"), Some(0));
    assert_eq!(parse_node_name("node17"), Some(17));
    assert_eq!(parse_node_name("node4294967295"), Some(u32::MAX));
    assert_eq!(parse_node_name("node4294967296"), None);
    assert_eq!(parse_node_name("node"), None);
    assert_eq!(parse_node_name("nodes"), None);
    assert_eq!(parse_node_name("node1a"), None);
    assert_eq!(parse_node_name("Node1"), None);
    assert_eq!(parse_node_name("nod"), None);
    assert_eq!(parse_node_name(""), None);
    assert_eq!(parse_node_name("possible"), None);
    assert_eq!(parse_node_name("has_cpu"), None);
}

#[test]
fn nodes_come_out_in_ascending_order() {
    let entries = vec![
        entry("node2", true, Some(MEM), Some("8-11")),
        entry("possible", false, None, None),
        entry("node0", true, Some(MEM), Some("0-3")),
        entry("power", true, None, None),
        entry("node10", true, None, None),
        entry("node1", true, Some(MEM), Some("4-7")),
    ];
    let nodes = get_numa_node_data(&entries, MemAccounting::Reclaimable);
    let ids: Vec<u32> = nodes.iter().map(|n| n.id).collect();
    assert_eq!(ids, vec![0, 1, 2, 10]);
    let cores: Vec<u32> = nodes[1].cpus.as_ref().unwrap().iter().map(|c| c.id).collect();
    assert_eq!(cores, vec![4, 5, 6, 7]);
    assert!(nodes[3].cpus.is_none());
}

#[test]
fn nodes_with_one_number_keep_the_order_of_their_entries() {
    let entries = vec![
        entry("node1", true, None, Some("5")),
        entry("node0", true, None, Some("1")),
        entry("node01", true, None, Some("6")),
        entry("node+1", true, None, Some("7")),
    ];
    let nodes = get_numa_node_data(&entries, MemAccounting::FreeOnly);
    let firsts: Vec<(u32, u32)> =
        nodes.iter().map(|n| (n.id, n.cpus.as_ref().unwrap()[0].id)).collect();
    assert_eq!(firsts, vec![(0, 1), (1, 5), (1, 6), (1, 7)]);
}

#[test]
fn a_node_without_cores_has_none() {
    for cpulist in [None, Some(""), Some("\n"), Some("  "), Some("junk"), Some("3-1")] {
        let node = read_node(&entry("node1", true, Some(MEM), cpulist), MemAccounting::FreeOnly)
            .unwrap();
        assert!(node.cpus.is_none(), "{:?}", cpulist);
        assert_eq!((node.id, node.total_memory_mb, node.used_memory_mb), (1, 4, 3));
    }
}

#[test]
fn fresh_cores_are_idle() {
    let node =
        read_node(&entry("node0", true, None, Some("0-1\n")), MemAccounting::FreeOnly).unwrap();
    let cores = node.cpus.unwrap();
    assert_eq!(cores.len(), 2);
    for (i, core) in cores.iter().enumerate() {
        assert_eq!(core.id, i as u32);
        assert_eq!((core.utilization.busy(), core.utilization.total()), (0, 0));
    }
}

#[test]
fn unreadable_or_incomplete_memory_figures_are_zero() {
    let node = read_node(&entry("node0", true, None, Some("0")), MemAccounting::Reclaimable)
        .unwrap();
    assert_eq!((node.total_memory_mb, node.used_memory_mb), (0, 0));
    let node = read_node(
        &entry("node0", true, Some("Node 0 MemTotal: 4096 kB\n"), Some("0")),
        MemAccounting::Reclaimable,
    )
    .unwrap();
    assert_eq!((node.total_memory_mb, node.used_memory_mb), (0, 0));
    assert!(node.cpus.is_some());
}

#[test]
fn the_accounting_decides_what_counts_as_used() {
    let listing = "Node 0 MemTotal: 8192 kB\nNode 0 MemFree: 1024 kB\n\
Node 0 Cached: 3072 kB\nNode 0 MemUsed: 7168 kB\n";
    let e = entry("node0", true, Some(listing), None);
    let used = |mode| read_node(&e, mode).unwrap().used_memory_mb;
    assert_eq!(used(MemAccounting::FreeOnly), 7);
    assert_eq!(used(MemAccounting::Reclaimable), 4);
    assert_eq!(used(MemAccounting::Reported), 7);
}

#[test]
fn what_is_no_directory_is_no_node() {
    assert!(read_node(&entry("node0", false, Some(MEM), Some("0")), MemAccounting::FreeOnly)
        .is_none());
    assert!(read_node(&entry("cpu0", true, Some(MEM), Some("0")), MemAccounting::FreeOnly)
        .is_none());
    assert!(get_numa_node_data(&vec![], MemAccounting::FreeOnly).is_empty());
}
