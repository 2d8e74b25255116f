use numatop::cpu_list::{insert_ascending, list_contains, list_members, parse_range};
use numatop::proc_info::parse_cpu_list;
use numatop::sys_numa_info::{get_all_present_cpu_indices, parse_cpulist};

fn chars(s: &str) -> Vec<char> {
    s.chars().collect()
}

#[test]
fn a_range_names_each_core_between_its_bounds() {
    assert_eq!(parse_cpulist("0-3"), vec![0, 1, 2, 3]);
}

#[test]
fn numbers_and_ranges_mix() {
    assert_eq!(parse_cpulist("0,2-4,7"), vec![0, 2, 3, 4, 7]);
    assert_eq!(parse_cpulist("0-3,8,10-11"), vec![0, 1, 2, 3, 8, 10, 11]);
}

#[test]
fn a_range_excludes_its_neighbours() {
    let cores = parse_cpulist("8-15");
    assert_eq!(cores, vec![8, 9, 10, 11, 12, 13, 14, 15]);
    assert!(!cores.contains(&7));
    assert!(!cores.contains(&16));
    assert!(!parse_cpu_list("8-15", 7));
    assert!(parse_cpu_list("8-15", 8));
    assert!(parse_cpu_list("8-15", 15));
    assert!(!parse_cpu_list("8-15", 16));
}

#[test]
fn malformed_items_name_nothing() {
    for bad in ["invalid", "0-", "-3", "0-3-5", "", " ", "-", "1--2", "a-b", "3-x"] {
        assert_eq!(parse_cpulist(bad), Vec::<u32>::new(), "{:?}", bad);
        for cpu in 0..8 {
            assert!(!parse_cpu_list(bad, cpu), "{:?} names {}", bad, cpu);
        }
    }
}

#[test]
fn malformed_items_leave_their_siblings_alone() {
    assert_eq!(parse_cpulist("invalid,1,0-,2-3,-3,0-3-5,9"), vec![1, 2, 3, 9]);
    assert!(parse_cpu_list("invalid,1,0-,2-3,-3,0-3-5,9", 3));
    assert!(parse_cpu_list("invalid,1,0-,2-3,-3,0-3-5,9", 9));
    assert!(!parse_cpu_list("invalid,1,0-,2-3,-3,0-3-5,9", 0));
    assert!(!parse_cpu_list("invalid,1,0-,2-3,-3,0-3-5,9", 5));
}

#[test]
fn whitespace_around_items_and_dashes_is_tolerated() {
    assert_eq!(parse_cpulist(" 0 - 3 "), parse_cpulist("0-3"));
    assert_eq!(parse_cpulist(" 0 - 3 "), vec![0, 1, 2, 3]);
    assert_eq!(parse_cpulist("0 , 2 - 4 ,\t7\n"), vec![0, 2, 3, 4, 7]);
    assert!(parse_cpu_list(" 0 - 3 ", 2));
    assert!(!parse_cpu_list(" 0 - 3 ", 4));
    assert_eq!(parse_cpulist("0-3\n"), vec![0, 1, 2, 3]);
}

#[test]
fn cores_come_out_ascending_and_once() {
    assert_eq!(parse_cpulist("7,0-2,1-3,7,5"), vec![0, 1, 2, 3, 5, 7]);
    assert_eq!(parse_cpulist("3,2,1"), vec![1, 2, 3]);
}

#[test]
fn a_range_that_descends_is_empty() {
    assert_eq!(parse_cpulist("5-3"), Vec::<u32>::new());
    assert!(!parse_cpu_list("5-3", 4));
    assert_eq!(parse_cpulist("4-4"), vec![4]);
}

#[test]
fn the_highest_core_number_is_reached() {
    assert_eq!(parse_cpulist("4294967294-4294967295"), vec![4294967294, 4294967295]);
    assert!(parse_cpu_list("0-4294967295", 4294967295));
    assert!(parse_cpu_list("0-4294967295", 0));
    assert_eq!(parse_cpulist("4294967296"), Vec::<u32>::new());
}

#[test]
fn membership_agrees_with_the_listed_cores() {
    for list in ["0-3", "0,2-4,7", " 1 , 9-11", "x,3", "", "2-2,2"] {
        let cores = parse_cpulist(list);
        for cpu in 0..16 {
            assert_eq!(parse_cpu_list(list, cpu), cores.contains(&cpu), "{:?} {}", list, cpu);
            assert_eq!(list_contains(&chars(list), cpu), cores.contains(&cpu));
        }
        assert_eq!(list_members(&chars(list)), cores);
    }
}

#[test]
fn present_cores_are_read_by_the_same_grammar() {
    assert_eq!(get_all_present_cpu_indices("0-7\n"), vec![0, 1, 2, 3, 4, 5, 6, 7]);
    assert_eq!(get_all_present_cpu_indices(""), Vec::<u32>::new());
}

#[test]
fn an_item_gives_its_bounds() {
    assert_eq!(parse_range(&chars("5")), Some((5, 5)));
    assert_eq!(parse_range(&chars(" 2 - 9 ")), Some((2, 9)));
    assert_eq!(parse_range(&chars("+2-+9")), Some((2, 9)));
    assert_eq!(parse_range(&chars("9-2")), Some((9, 2)));
    assert_eq!(parse_range(&chars("2-")), None);
    assert_eq!(parse_range(&chars("1 2")), None);
}

#[test]
fn insertion_keeps_the_order_and_adds_nothing_twice() {
    let mut v = vec![1, 4, 9];
    insert_ascending(&mut v, 5);
    insert_ascending(&mut v, 0);
    insert_ascending(&mut v, 10);
    insert_ascending(&mut v, 4);
    assert_eq!(v, vec![0, 1, 4, 5, 9, 10]);
}
