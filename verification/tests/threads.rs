//! Which cores the pool runs on.

use rmp::threads::{
    allowed_cpus, configure_pool, cpu_from, fast_cores, fast_physical_cores, group_fast_cores,
    overridden, parse_cpu_list, prefer_fast_cores, restrict_to, Cpu, Reading,
};

fn cpu(id: usize, core: &str, max_freq: u64) -> Cpu {
    Cpu { id, core: core.to_string(), capacity: Some(1024), max_freq: Some(max_freq) }
}

#[test]
fn cpu_lists_parse_as_the_kernel_writes_them() {
    assert_eq!(parse_cpu_list("0-3,8,10-11"), Some(vec![0, 1, 2, 3, 8, 10, 11]));
    assert_eq!(parse_cpu_list("5"), Some(vec![5]));
    assert_eq!(parse_cpu_list("0-23"), Some((0..24).collect()));
    assert_eq!(parse_cpu_list(""), Some(vec![]));
    assert_eq!(parse_cpu_list("3-1"), None);
    assert_eq!(parse_cpu_list("a-b"), None);
}

/// Eight hyperthreaded performance cores, two of them favoured, and eight efficiency cores.
#[test]
fn a_hybrid_cpu_groups_its_performance_cores_by_sibling() {
    let mut cpus = Vec::new();
    for core in 0..8 {
        let freq = if core == 4 || core == 5 { 5_400_000 } else { 5_300_000 };
        let siblings = format!("{}-{}", 2 * core, 2 * core + 1);
        cpus.push(cpu(2 * core, &siblings, freq));
        cpus.push(cpu(2 * core + 1, &siblings, freq));
    }
    for e in 16..24 {
        cpus.push(cpu(e, &e.to_string(), 4_200_000));
    }
    let cores = group_fast_cores(&cpus);
    assert_eq!(cores.len(), 8);
    assert_eq!(cores[0], vec![0, 1]);
    assert_eq!(cores.concat(), (0..16).collect::<Vec<_>>());
}

#[test]
fn an_smt_machine_counts_physical_cores_and_a_plain_one_counts_cpus() {
    let smt: Vec<Cpu> = (0..16).map(|n| cpu(n, &format!("{}-{}", n & !1, n | 1), 100)).collect();
    assert_eq!(group_fast_cores(&smt).len(), 8);
    let plain: Vec<Cpu> = (0..6).map(|n| cpu(n, &n.to_string(), 100)).collect();
    assert_eq!(group_fast_cores(&plain).len(), 6);
}

#[test]
fn a_capacity_that_varies_decides_the_class() {
    let big_little: Vec<Cpu> = (0..8)
        .map(|id| Cpu {
            id,
            core: id.to_string(),
            capacity: Some(if id < 2 { 1024 } else { 430 }),
            max_freq: None,
        })
        .collect();
    assert_eq!(group_fast_cores(&big_little), vec![vec![0], vec![1]]);
    let unknown: Vec<Cpu> = (0..4)
        .map(|id| Cpu { id, core: id.to_string(), capacity: None, max_freq: None })
        .collect();
    assert_eq!(group_fast_cores(&unknown).len(), 4);
}

#[test]
fn an_affinity_mask_limits_what_is_counted() {
    let cpus: Vec<Cpu> = (16..20).map(|n| cpu(n, &n.to_string(), 4_200_000)).collect();
    assert_eq!(group_fast_cores(&cpus).len(), 4);
    assert!(group_fast_cores(&[]).is_empty());
}

#[test]
fn a_status_file_names_the_cpus_allowed() {
    let status = "Name:\tx\nCpus_allowed:\tf\nCpus_allowed_list:\t0-2,5\nMems_allowed:\t1\n";
    assert_eq!(allowed_cpus(status), Some(vec![0, 1, 2, 5]));
    assert_eq!(allowed_cpus("Name:\tx\n"), None);
}

fn reading(id: usize, siblings: &str, freq: &str) -> Reading {
    Reading {
        id,
        core_cpus: None,
        thread_siblings: Some(siblings.to_string()),
        capacity: None,
        max_freq: Some(freq.to_string()),
    }
}

#[test]
fn a_reading_becomes_a_cpu() {
    let c = cpu_from(&reading(3, "2-3\n", " 100\n"));
    assert_eq!((c.id, c.core.as_str(), c.max_freq, c.capacity), (3, "2-3", Some(100), None));
}

#[test]
fn the_pool_is_sized_and_placed_on_the_fast_cores() {
    let readings: Vec<Reading> = vec![
        reading(0, "0-1", "200"),
        reading(1, "0-1", "200"),
        reading(2, "2", "100"),
        reading(3, "3", "100"),
    ];
    let cores = fast_cores(&readings);
    assert_eq!(cores, Some(vec![vec![0, 1]]));
    assert_eq!(fast_physical_cores(&cores), Some(1));
    assert_eq!(prefer_fast_cores(false, &cores), Some(vec![0, 1]));
    assert_eq!(prefer_fast_cores(true, &cores), None);
    assert_eq!(configure_pool(true, &cores), None);
    assert_eq!(configure_pool(false, &cores).map(|(n, _)| n), Some(1));
}

#[test]
fn an_environment_variable_overrides_the_choice() {
    assert!(!overridden(&None));
    assert!(overridden(&Some("4".to_string())));
}

#[test]
fn a_mask_holds_what_fits_it() {
    assert_eq!(restrict_to(&[0, 3, 5000], 1024), vec![0, 3]);
}
