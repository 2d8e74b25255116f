use numatop::proc_info::RawCpuTimes;

fn sample(user: u64, idle: u64, iowait: u64) -> RawCpuTimes {
    RawCpuTimes { user, nice: 1, system: 2, idle, iowait, irq: 3, softirq: 4, steal: 5 }
}

#[test]
fn total_adds_all_eight_counters() {
    assert_eq!(sample(10, 100, 7).total(), 10 + 1 + 2 + 100 + 7 + 3 + 4 + 5);
}

#[test]
fn busy_leaves_out_idle_and_iowait() {
    let times = sample(10, 100, 7);
    assert_eq!(times.busy(), 10 + 1 + 2 + 3 + 4 + 5);
    assert_eq!(times.busy(), times.total() - (times.idle + times.iowait));
}
