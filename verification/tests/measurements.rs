use docker_stats::docker_events::stats::{
    calculate_cpu_percent, container_stats, cpu_count, total_cpu_usage, CollectedAt,
    ContainerCpuStats, ContainerCpuUsage, ContainerMemoryStats, ContainerNetworkStats,
    ContainerStatsResponse, CpuPercent,
};
use docker_stats::string_map::StringMap;

const NOW: CollectedAt = CollectedAt::SinceEpoch { seconds: 1, nanoseconds: 2 };

fn cpu(total: Option<u64>, system: Option<u64>, online: Option<u32>) -> ContainerCpuStats {
    ContainerCpuStats {
        cpu_usage: Some(ContainerCpuUsage {
            total_usage: total,
            percpu_usage: Some(vec![1, 2, 3]),
            usage_in_kernelmode: Some(11),
            usage_in_usermode: Some(12),
        }),
        system_cpu_usage: system,
        online_cpus: online,
    }
}

fn memory(usage: Option<u64>, stats: Option<&[(&str, u64)]>) -> ContainerMemoryStats {
    ContainerMemoryStats {
        usage,
        limit: Some(9_000),
        stats: stats.map(|stats| {
            let mut map = StringMap::new();
            for (key, value) in stats {
                map.insert(key.to_string(), *value);
            }
            map
        }),
    }
}

fn networks(counts: &[(&str, Option<u64>, Option<u64>)]) -> StringMap<ContainerNetworkStats> {
    let mut map = StringMap::new();
    for (name, rx_bytes, tx_bytes) in counts {
        map.insert(
            name.to_string(),
            ContainerNetworkStats { rx_bytes: *rx_bytes, tx_bytes: *tx_bytes },
        );
    }
    map
}

fn empty() -> ContainerStatsResponse {
    ContainerStatsResponse {
        id: Some("1".to_string()),
        name: None,
        cpu_stats: None,
        precpu_stats: None,
        memory_stats: None,
        networks: None,
    }
}

fn of_memory(memory: ContainerMemoryStats) -> (Option<u64>, Option<u64>, Option<u64>) {
    let response = ContainerStatsResponse { memory_stats: Some(memory), ..empty() };
    assert!(response.has_sums_that_fit());
    let stats = container_stats(response, NOW).unwrap();
    (stats.memory_usage_bytes, stats.memory_rss_bytes, stats.memory_cache_bytes)
}

#[test]
fn a_measurement_without_an_id_is_dropped() {
    assert!(container_stats(ContainerStatsResponse { id: None, ..empty() }, NOW).is_none());
}

#[test]
fn an_empty_measurement_tells_nothing() {
    let stats = container_stats(empty(), NOW).unwrap();
    assert_eq!(stats.id, "1");
    assert_eq!(stats.name, None);
    assert_eq!(stats.collected_at, NOW);
    assert_eq!(stats.cpu_percent, None);
    assert_eq!(stats.cpu_usage_ns, None);
    assert_eq!(stats.cpu_usage_system_ns, None);
    assert_eq!(stats.cpu_usage_user_ns, None);
    assert_eq!(stats.memory_limit_bytes, None);
    assert_eq!(stats.memory_usage_bytes, None);
    assert_eq!(stats.memory_rss_bytes, None);
    assert_eq!(stats.memory_cache_bytes, None);
    assert_eq!(stats.network_rx_bytes, None);
    assert_eq!(stats.network_tx_bytes, None);
}

#[test]
fn a_full_measurement_is_summed_up() {
    let response = ContainerStatsResponse {
        id: Some("42".to_string()),
        name: Some("/cache".to_string()),
        cpu_stats: Some(cpu(Some(700), Some(2_000), Some(4))),
        precpu_stats: Some(cpu(Some(200), Some(1_000), None)),
        memory_stats: Some(memory(Some(100), Some(&[("rss", 30), ("cache", 7)]))),
        networks: Some(networks(&[
            ("eth0", Some(1), Some(10)),
            ("eth1", Some(2), None),
            ("eth2", None, Some(20)),
        ])),
    };
    let stats = container_stats(response, NOW).unwrap();
    assert_eq!(stats.id, "42");
    assert_eq!(stats.name, Some("/cache".to_string()));
    assert_eq!(
        stats.cpu_percent,
        Some(CpuPercent::Share { cpu_delta: 500, system_delta: 1_000, online_cpus: 4 })
    );
    assert_eq!(stats.cpu_usage_ns, Some(700));
    assert_eq!(stats.cpu_usage_system_ns, Some(11));
    assert_eq!(stats.cpu_usage_user_ns, Some(12));
    assert_eq!(stats.memory_limit_bytes, Some(9_000));
    assert_eq!(stats.memory_usage_bytes, Some(100));
    assert_eq!(stats.memory_rss_bytes, Some(30));
    assert_eq!(stats.memory_cache_bytes, Some(7));
    assert_eq!(stats.network_rx_bytes, Some(3));
    assert_eq!(stats.network_tx_bytes, Some(30));
}

#[test]
fn resident_memory_is_told_in_three_ways() {
    let all: &[(&str, u64)] = &[("rss", 1), ("total_rss", 2), ("anon", 3), ("shmem", 4)];
    assert_eq!(of_memory(memory(None, Some(all))).1, Some(1));
    assert_eq!(of_memory(memory(None, Some(&all[1..]))).1, Some(2));
    assert_eq!(of_memory(memory(None, Some(&all[2..]))).1, Some(7));
    assert_eq!(of_memory(memory(None, Some(&[("anon", 3)]))).1, Some(3));
    assert_eq!(of_memory(memory(None, Some(&[("shmem", 4)]))).1, None);
    assert_eq!(of_memory(memory(Some(5), None)).1, None);
}

#[test]
fn page_cache_is_told_or_the_rest_of_the_usage() {
    assert_eq!(of_memory(memory(Some(9), Some(&[("cache", 1), ("total_cache", 2)]))).2, Some(1));
    assert_eq!(of_memory(memory(Some(9), Some(&[("total_cache", 2)]))).2, Some(2));
    assert_eq!(of_memory(memory(Some(9), Some(&[("rss", 4)]))), (Some(9), Some(4), Some(5)));
    assert_eq!(of_memory(memory(Some(3), Some(&[("rss", 4)]))), (Some(3), Some(4), None));
    assert_eq!(of_memory(memory(None, Some(&[("rss", 4)]))).2, None);
    assert_eq!(of_memory(memory(Some(9), None)).2, None);
    assert_eq!(of_memory(memory(Some(9), Some(&[]))).2, None);
}

#[test]
fn network_sums_do_not_depend_on_the_order() {
    let sums = |counts: &[(&str, Option<u64>, Option<u64>)]| {
        let response =
            ContainerStatsResponse { networks: Some(networks(counts)), ..empty() };
        assert!(response.has_sums_that_fit());
        let stats = container_stats(response, NOW).unwrap();
        (stats.network_rx_bytes, stats.network_tx_bytes)
    };
    let a = ("a", Some(1), None);
    let b = ("b", Some(u64::MAX - 1), Some(3));
    assert_eq!(sums(&[a, b]), (Some(u64::MAX), Some(3)));
    assert_eq!(sums(&[b, a]), (Some(u64::MAX), Some(3)));
    assert_eq!(sums(&[]), (Some(0), Some(0)));
}

#[test]
fn sums_beyond_64_bits_are_noticed() {
    let response = ContainerStatsResponse {
        networks: Some(networks(&[("a", Some(u64::MAX), None), ("b", Some(1), None)])),
        ..empty()
    };
    assert!(!response.has_sums_that_fit());
    let response = ContainerStatsResponse {
        networks: Some(networks(&[("a", None, Some(u64::MAX)), ("b", None, Some(1))])),
        ..empty()
    };
    assert!(!response.has_sums_that_fit());
    let response = ContainerStatsResponse {
        memory_stats: Some(memory(None, Some(&[("anon", u64::MAX), ("shmem", 1)]))),
        ..empty()
    };
    assert!(!response.has_sums_that_fit());
    let response = ContainerStatsResponse {
        memory_stats: Some(memory(None, Some(&[("rss", 0), ("anon", u64::MAX), ("shmem", 1)]))),
        ..empty()
    };
    assert!(response.has_sums_that_fit());
}

#[test]
fn cpu_share_needs_counters_that_go_up() {
    let percent = |now: ContainerCpuStats, before: ContainerCpuStats| {
        calculate_cpu_percent(&ContainerStatsResponse {
            cpu_stats: Some(now),
            precpu_stats: Some(before),
            ..empty()
        })
    };
    let before = || cpu(Some(5), Some(50), None);
    assert_eq!(percent(cpu(Some(4), Some(60), None), before()), None);
    assert_eq!(percent(cpu(Some(6), Some(40), None), before()), None);
    assert_eq!(percent(cpu(None, Some(60), None), before()), None);
    assert_eq!(percent(cpu(Some(6), None, None), before()), None);
    assert_eq!(percent(cpu(Some(6), Some(60), None), cpu(Some(5), None, None)), None);
    assert_eq!(percent(cpu(Some(6), Some(60), None), cpu(None, Some(50), None)), None);
    assert_eq!(percent(cpu(Some(5), Some(60), None), before()), Some(CpuPercent::Zero));
    assert_eq!(percent(cpu(Some(6), Some(50), None), before()), Some(CpuPercent::Zero));
    assert_eq!(
        percent(cpu(Some(6), Some(60), None), before()),
        Some(CpuPercent::Share { cpu_delta: 1, system_delta: 10, online_cpus: 3 })
    );
    assert_eq!(calculate_cpu_percent(&empty()), None);
}

#[test]
fn cpus_are_counted() {
    let mut stats = cpu(Some(1), None, Some(8));
    assert_eq!(total_cpu_usage(&stats), Some(1));
    assert_eq!(cpu_count(&stats), Some(8));
    stats.online_cpus = None;
    assert_eq!(cpu_count(&stats), Some(3));
    stats.cpu_usage = None;
    assert_eq!(cpu_count(&stats), None);
    assert_eq!(total_cpu_usage(&stats), None);
    let bare = ContainerCpuStats { system_cpu_usage: Some(60), ..stats };
    let now = ContainerCpuStats {
        cpu_usage: Some(ContainerCpuUsage {
            total_usage: Some(6),
            percpu_usage: None,
            usage_in_kernelmode: None,
            usage_in_usermode: None,
        }),
        ..bare
    };
    let response = ContainerStatsResponse {
        cpu_stats: Some(now),
        precpu_stats: Some(cpu(Some(5), Some(50), None)),
        ..empty()
    };
    assert_eq!(
        calculate_cpu_percent(&response),
        Some(CpuPercent::Share { cpu_delta: 1, system_delta: 10, online_cpus: 1 })
    );
}
