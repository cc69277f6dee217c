use sim_runner::cpus::cpu_id;
use sim_runner::cpus::cpu_ids;
use sim_runner::cpus::cpu_list;
use sim_runner::cpus::sort_ids;

#[test]
fn cpu_ids_from_sysfs_names() {
    let names: Vec<String> = ["cpu10", "cpufreq", "cpu2", "cpuidle", "online", "cpu0", "cpu1", "possible", "cpu", "cpu+3", "Cpu4"]
        .iter()
        .map(|s| s.to_string())
        .collect();
    assert_eq!(cpu_ids(&names), vec![0, 1, 2, 3, 10]);
}

#[test]
fn cpu_id_matches_strip_prefix_and_parse() {
    for name in ["cpu0", "cpu17", "cpu", "cpux", "xcpu1", "cpu-1", "cpu 1", "cpu18446744073709551616"] {
        let want = name.strip_prefix("cpu").and_then(|s| s.parse::<usize>().ok());
        assert_eq!(cpu_id(name), want, "name {name:?}");
    }
}

#[test]
fn sort_ids_sorts_with_duplicates() {
    assert_eq!(sort_ids(&vec![3, 1, 2, 1, 0]), vec![0, 1, 1, 2, 3]);
    assert_eq!(sort_ids(&Vec::new()), Vec::<usize>::new());
}

#[test]
fn cpu_list_joins_prefix() {
    let cpus = vec![0, 1, 2, 13];
    assert_eq!(cpu_list(&cpus, 0), "");
    assert_eq!(cpu_list(&cpus, 1), "0");
    assert_eq!(cpu_list(&cpus, 4), "0,1,2,13");
}

#[test]
fn cpu_list_reads_back_as_the_pinned_cpus() {
    let cpus = vec![3, 0, 12, 7];
    for n in 1..=cpus.len() {
        let list = cpu_list(&cpus, n);
        let back: Vec<usize> = list.split(',').map(|p| p.parse().unwrap()).collect();
        assert_eq!(back, cpus[..n].to_vec());
    }
}
