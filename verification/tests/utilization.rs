use numatop::numa_node::{CpuCore, NumaNode, Utilization};
use numatop::proc_info::RawCpuTimes;
use std::collections::HashMap;

fn sample(busy: u64, idle: u64) -> RawCpuTimes {
    RawCpuTimes { user: busy, nice: 0, system: 0, idle, iowait: 0, irq: 0, softirq: 0, steal: 0 }
}

fn percent(u: &Utilization) -> f64 {
    if u.total() == 0 {
        0.0
    } else {
        (u.busy() as f64 / u.total() as f64) * 100.0
    }
}

#[test]
fn a_quarter_of_the_interval_busy_is_25_percent() {
    let before = sample(100, 900);
    let now = sample(150, 1050);
    let u = Utilization::between(&now, &before);
    assert_eq!(u.busy(), 50);
    assert_eq!(u.total(), 200);
    assert_eq!(u.percent(), 25);
    assert_eq!(percent(&u), 25.0);
}

#[test]
fn utilization_stays_between_0_and_100() {
    let values = [0u64, 1, 2, 50, 1000, u64::MAX / 16, u64::MAX];
    for &b0 in &values {
        for &i0 in &values {
            for &b1 in &values {
                for &i1 in &values {
                    let u = Utilization::between(&sample(b1, i1), &sample(b0, i0));
                    assert!(u.busy() <= u.total());
                    assert!(u.percent() <= 100);
                    let p = percent(&u);
                    assert!((0.0..=100.0).contains(&p));
                }
            }
        }
    }
}

#[test]
fn an_interval_of_no_time_is_idle() {
    let times = sample(500, 500);
    let u = Utilization::between(&times, &times);
    assert_eq!((u.busy(), u.total()), (0, 0));
    assert_eq!(u.percent(), 0);
    assert_eq!(percent(&u), 0.0);
}

#[test]
fn a_counter_that_went_backwards_counts_as_zero() {
    let before = sample(1000, 9000);
    let now = sample(10, 90);
    let u = Utilization::between(&now, &before);
    assert_eq!((u.busy(), u.total()), (0, 0));
    assert_eq!(u.percent(), 0);

    // busy went backwards, the total went on
    let before = sample(1000, 0);
    let now = sample(400, 1600);
    let u = Utilization::between(&now, &before);
    assert_eq!((u.busy(), u.total()), (0, 1000));
    assert_eq!(u.percent(), 0);
}

#[test]
fn busy_time_above_the_interval_is_cut_to_100_percent() {
    // idle went backwards: busy advanced by 300, the total by 100 only
    let before = sample(0, 1000);
    let now = sample(300, 800);
    let u = Utilization::between(&now, &before);
    assert_eq!((u.busy(), u.total()), (100, 100));
    assert_eq!(u.percent(), 100);
    assert_eq!(percent(&u), 100.0);
}

#[test]
fn sums_beyond_64_bits_are_held() {
    let all = RawCpuTimes {
        user: u64::MAX,
        nice: u64::MAX,
        system: u64::MAX,
        idle: u64::MAX,
        iowait: u64::MAX,
        irq: u64::MAX,
        softirq: u64::MAX,
        steal: u64::MAX,
    };
    assert_eq!(all.total_wide(), 8 * (u64::MAX as u128));
    assert_eq!(all.busy_wide(), 6 * (u64::MAX as u128));
    let u = Utilization::between(&all, &RawCpuTimes::default());
    assert_eq!(u.total(), 8 * (u64::MAX as u128));
    assert_eq!(u.busy(), 6 * (u64::MAX as u128));
    assert_eq!(u.percent(), 75);
}

#[test]
fn new_cuts_busy_down_to_total() {
    let u = Utilization::new(7, 5);
    assert_eq!((u.busy(), u.total()), (5, 5));
    let u = Utilization::new(1, 3);
    assert_eq!((u.busy(), u.total()), (1, 3));
    assert_eq!(u.percent(), 33);
    let u = Utilization::zero();
    assert_eq!((u.busy(), u.total(), u.percent()), (0, 0, 0));
}

#[test]
fn exceeds_compares_exactly() {
    let u = Utilization::new(85, 100);
    assert!(!u.exceeds(85));
    assert!(u.exceeds(84));
    let u = Utilization::new(851, 1000);
    assert!(u.exceeds(85));
    assert!(!Utilization::zero().exceeds(0));
    assert!(Utilization::new(1, 1).exceeds(99));
    assert!(!Utilization::new(1, 1).exceeds(100));
}

#[test]
fn a_core_seen_for_the_first_time_is_idle() {
    let mut core = CpuCore::new(3);
    let previous = HashMap::new();
    let mut current = HashMap::new();
    current.insert(3, sample(123456, 1));
    core.refresh(&previous, &current);
    assert_eq!(core.id, 3);
    assert_eq!((core.utilization.busy(), core.utilization.total()), (0, 0));
    assert_eq!(core.utilization.percent(), 0);
}

#[test]
fn a_core_missing_from_the_sample_keeps_its_utilization() {
    let mut core = CpuCore { id: 1, utilization: Utilization::new(30, 40) };
    let mut previous = HashMap::new();
    previous.insert(1, sample(0, 0));
    let mut current = HashMap::new();
    current.insert(0, sample(10, 10));
    core.refresh(&previous, &current);
    assert_eq!((core.utilization.busy(), core.utilization.total()), (30, 40));
}

#[test]
fn a_node_refreshes_each_core_by_its_own_number() {
    let mut node = NumaNode {
        id: 0,
        cpus: Some(vec![CpuCore::new(0), CpuCore::new(1), CpuCore::new(2)]),
        total_memory_mb: 10,
        used_memory_mb: 5,
    };
    let mut previous = HashMap::new();
    previous.insert(0, sample(0, 0));
    previous.insert(1, sample(100, 100));
    let mut current = HashMap::new();
    current.insert(0, sample(50, 150));
    current.insert(1, sample(200, 100));
    current.insert(2, sample(999, 1));
    node.refresh(&previous, &current);
    let cores = node.cpus.unwrap();
    assert_eq!((cores[0].utilization.busy(), cores[0].utilization.total()), (50, 200));
    assert_eq!((cores[1].utilization.busy(), cores[1].utilization.total()), (100, 100));
    assert_eq!((cores[2].utilization.busy(), cores[2].utilization.total()), (0, 0));
    assert_eq!((node.id, node.total_memory_mb, node.used_memory_mb), (0, 10, 5));

    let mut no_cores =
        NumaNode { id: 1, cpus: None, total_memory_mb: 1, used_memory_mb: 0 };
    no_cores.refresh(&previous, &current);
    assert!(no_cores.cpus.is_none());
}

#[test]
fn the_default_core_is_core_zero_and_idle() {
    let core = CpuCore::default();
    assert_eq!(core.id, 0);
    assert_eq!(core.utilization.total(), 0);
    let times = RawCpuTimes::default();
    assert_eq!(times.total(), 0);
    assert_eq!(times.busy(), 0);
}
