//! What a container consumes, from what the Docker daemon measures.
use vstd::prelude::*;

use crate::order;
use crate::string_map;
use crate::string_map::StringMap;

verus! {

/// The CPU time that a container has used, in nanoseconds.
#[derive(Clone, Debug)]
pub struct ContainerCpuUsage {
    pub total_usage: Option<u64>,
    pub percpu_usage: Option<Vec<u64>>,
    pub usage_in_kernelmode: Option<u64>,
    pub usage_in_usermode: Option<u64>,
}

/// A measurement of CPU use, of the container and of the host.
#[derive(Clone, Debug)]
pub struct ContainerCpuStats {
    pub cpu_usage: Option<ContainerCpuUsage>,
    pub system_cpu_usage: Option<u64>,
    pub online_cpus: Option<u32>,
}

/// A measurement of memory use, in bytes. Which of `stats` there are depends on the version of the
/// control groups.
#[derive(Clone, Debug)]
pub struct ContainerMemoryStats {
    pub usage: Option<u64>,
    pub limit: Option<u64>,
    pub stats: Option<StringMap<u64>>,
}

/// What passed over one network interface.
#[derive(Clone, Copy, Debug)]
pub struct ContainerNetworkStats {
    pub rx_bytes: Option<u64>,
    pub tx_bytes: Option<u64>,
}

/// One measurement of a container, and the CPU measurement before it.
#[derive(Clone, Debug)]
pub struct ContainerStatsResponse {
    pub id: Option<String>,
    pub name: Option<String>,
    pub cpu_stats: Option<ContainerCpuStats>,
    pub precpu_stats: Option<ContainerCpuStats>,
    pub memory_stats: Option<ContainerMemoryStats>,
    pub networks: Option<StringMap<ContainerNetworkStats>>,
}

/// When a measurement was taken.
#[derive(Clone, Copy, Debug, PartialEq, Eq, Structural)]
pub enum CollectedAt {
    BeforeEpoch,
    SinceEpoch { seconds: u64, nanoseconds: u32 },
}

/// The share of the host's CPU time between two measurements, in percent of one CPU.
#[derive(Clone, Copy, Debug, PartialEq, Eq, Structural)]
pub enum CpuPercent {
    /// Nothing was used, or no time passed.
    Zero,
    /// `cpu_delta / system_delta * online_cpus * 100`.
    Share { cpu_delta: u64, system_delta: u64, online_cpus: u32 },
}

/// What a container consumes.
#[derive(Clone, Debug, PartialEq)]
pub struct ContainerStats {
    pub id: String,
    pub name: Option<String>,
    pub collected_at: CollectedAt,
    pub cpu_percent: Option<CpuPercent>,
    pub cpu_usage_ns: Option<u64>,
    pub cpu_usage_system_ns: Option<u64>,
    pub cpu_usage_user_ns: Option<u64>,
    pub memory_limit_bytes: Option<u64>,
    pub memory_usage_bytes: Option<u64>,
    pub memory_rss_bytes: Option<u64>,
    pub memory_cache_bytes: Option<u64>,
    pub network_rx_bytes: Option<u64>,
    pub network_tx_bytes: Option<u64>,
}

// ---------------------------------------------------------------------------------------------
// What the numbers mean
// ---------------------------------------------------------------------------------------------

pub open spec fn total_usage(stats: ContainerCpuStats) -> Option<u64> {
    match stats.cpu_usage {
        Some(usage) => usage.total_usage,
        None => None,
    }
}

/// The number of CPUs: as it was measured, or else one for each CPU with a usage of its own.
pub open spec fn cpus(stats: ContainerCpuStats) -> Option<u32> {
    match stats.online_cpus {
        Some(online) => Some(online),
        None => match stats.cpu_usage {
            Some(usage) => match usage.percpu_usage {
                Some(percpu) => Some(percpu@.len() as u32),
                None => None,
            },
            None => None,
        },
    }
}

/// How far a counter has gone up, if it has not gone down.
pub open spec fn increase(now: Option<u64>, before: Option<u64>) -> Option<u64> {
    match (now, before) {
        (Some(now), Some(before)) => if now >= before {
            Some((now - before) as u64)
        } else {
            None
        },
        _ => None,
    }
}

/// The share of the host's CPU time, if both measurements tell it and no counter went down.
pub open spec fn cpu_percent_of(response: ContainerStatsResponse) -> Option<CpuPercent> {
    match (response.cpu_stats, response.precpu_stats) {
        (Some(now), Some(before)) => match (
            increase(total_usage(now), total_usage(before)),
            increase(now.system_cpu_usage, before.system_cpu_usage),
        ) {
            (Some(cpu_delta), Some(system_delta)) => if cpu_delta == 0 || system_delta == 0 {
                Some(CpuPercent::Zero)
            } else {
                Some(
                    CpuPercent::Share {
                        cpu_delta,
                        system_delta,
                        online_cpus: match cpus(now) {
                            Some(cpus) => cpus,
                            None => 1,
                        },
                    },
                )
            },
            _ => None,
        },
        _ => None,
    }
}

/// The statistic `key`.
pub open spec fn statistic(stats: Map<Seq<char>, u64>, key: Seq<char>) -> Option<u64> {
    if stats.contains_key(key) {
        Some(stats[key])
    } else {
        None
    }
}

/// The memory that is resident: as the first version of the control groups tells it, or else the
/// anonymous and the shared memory of the second.
pub open spec fn resident(stats: Map<Seq<char>, u64>) -> Option<nat> {
    match statistic(stats, "rss"@) {
        Some(rss) => Some(rss as nat),
        None => match statistic(stats, "total_rss"@) {
            Some(rss) => Some(rss as nat),
            None => match statistic(stats, "anon"@) {
                Some(anon) => Some(
                    anon as nat + match statistic(stats, "shmem"@) {
                        Some(shmem) => shmem as nat,
                        None => 0,
                    },
                ),
                None => None,
            },
        },
    }
}

/// The memory that is resident, of a measurement.
pub open spec fn memory_rss(memory: ContainerMemoryStats) -> Option<nat> {
    match memory.stats {
        Some(stats) => resident(stats@),
        None => None,
    }
}

/// The page cache that a measurement tells.
pub open spec fn told_cache(memory: ContainerMemoryStats) -> Option<u64> {
    match memory.stats {
        Some(stats) => match statistic(stats@, "cache"@) {
            Some(cache) => Some(cache),
            None => statistic(stats@, "total_cache"@),
        },
        None => None,
    }
}

/// The page cache: as the measurement tells it, or else what is used but not resident.
pub open spec fn memory_cache(memory: ContainerMemoryStats) -> Option<u64> {
    match told_cache(memory) {
        Some(cache) => Some(cache),
        None => match (memory.usage, memory_rss(memory)) {
            (Some(usage), Some(rss)) => if usage >= rss {
                Some((usage - rss) as u64)
            } else {
                None
            },
            _ => None,
        },
    }
}

/// The sum of the numbers that there are.
pub open spec fn sum_of(numbers: Seq<Option<u64>>) -> nat
    decreases numbers.len(),
{
    if numbers.len() == 0 {
        0
    } else {
        sum_of(numbers.drop_last()) + match numbers.last() {
            Some(number) => number as nat,
            None => 0,
        }
    }
}

/// The bytes received over each network interface.
pub open spec fn received(networks: string_map::Entries<ContainerNetworkStats>) -> Seq<
    Option<u64>,
> {
    networks.map_values(|network: (Seq<char>, ContainerNetworkStats)| network.1.rx_bytes)
}

/// The bytes sent over each network interface.
pub open spec fn transmitted(networks: string_map::Entries<ContainerNetworkStats>) -> Seq<
    Option<u64>,
> {
    networks.map_values(|network: (Seq<char>, ContainerNetworkStats)| network.1.tx_bytes)
}

impl ContainerStatsResponse {
    /// Whether every sum of a measurement is a number of 64 bits.
    pub open spec fn sums_fit(&self) -> bool {
        &&& self.memory_stats matches Some(memory) ==> (memory_rss(memory) matches Some(rss) ==> rss
            <= u64::MAX)
        &&& self.networks matches Some(networks) ==> sum_of(received(networks.entries()))
            <= u64::MAX && sum_of(transmitted(networks.entries())) <= u64::MAX
    }
}

// ---------------------------------------------------------------------------------------------
// Computing them
// ---------------------------------------------------------------------------------------------

/// The CPU time that the container has used in all.
pub fn total_cpu_usage(stats: &ContainerCpuStats) -> (usage: Option<u64>)
    ensures
        usage == total_usage(*stats),
{
    match &stats.cpu_usage {
        Some(usage) => usage.total_usage,
        None => None,
    }
}

/// The number of CPUs.
pub fn cpu_count(stats: &ContainerCpuStats) -> (count: Option<u32>)
    ensures
        count == cpus(*stats),
{
    match stats.online_cpus {
        Some(online) => Some(online),
        None => match &stats.cpu_usage {
            Some(usage) => match &usage.percpu_usage {
                Some(percpu) => Some(percpu.len() as u32),
                None => None,
            },
            None => None,
        },
    }
}

/// How far a counter has gone up.
fn counter_increase(now: Option<u64>, before: Option<u64>) -> (delta: Option<u64>)
    ensures
        delta == increase(now, before),
{
    match (now, before) {
        (Some(now), Some(before)) => now.checked_sub(before),
        _ => None,
    }
}

/// The share of the host's CPU time between the two measurements.
pub fn calculate_cpu_percent(stats: &ContainerStatsResponse) -> (percent: Option<CpuPercent>)
    ensures
        percent == cpu_percent_of(*stats),
{
    match (&stats.cpu_stats, &stats.precpu_stats) {
        (Some(now), Some(before)) => {
            let cpu_delta = counter_increase(total_cpu_usage(now), total_cpu_usage(before));
            let system_delta = counter_increase(now.system_cpu_usage, before.system_cpu_usage);
            match (cpu_delta, system_delta) {
                (Some(cpu_delta), Some(system_delta)) => {
                    if cpu_delta == 0 || system_delta == 0 {
                        return Some(CpuPercent::Zero);
                    }
                    let online_cpus: u32 = match cpu_count(now) {
                        Some(count) => count,
                        None => 1,
                    };
                    Some(CpuPercent::Share { cpu_delta, system_delta, online_cpus })
                },
                _ => None,
            }
        },
        _ => None,
    }
}

/// The statistic `key`, copied.
fn copied_statistic(stats: &StringMap<u64>, key: &str) -> (number: Option<u64>)
    ensures
        number == statistic(stats@, key@),
{
    match stats.get(key) {
        Some(number) => Some(*number),
        None => None,
    }
}

/// The memory that is resident, in 128 bits.
fn resident_bytes(memory: &ContainerMemoryStats) -> (bytes: Option<u128>)
    ensures
        match bytes {
            Some(bytes) => memory_rss(*memory) == Some(bytes as nat),
            None => memory_rss(*memory) is None,
        },
{
    let stats = match &memory.stats {
        Some(stats) => stats,
        None => {
            return None;
        },
    };
    if let Some(rss) = copied_statistic(stats, "rss") {
        return Some(rss as u128);
    }
    if let Some(rss) = copied_statistic(stats, "total_rss") {
        return Some(rss as u128);
    }
    match copied_statistic(stats, "anon") {
        Some(anon) => {
            let shmem: u64 = match copied_statistic(stats, "shmem") {
                Some(shmem) => shmem,
                None => 0,
            };
            Some(anon as u128 + shmem as u128)
        },
        None => None,
    }
}

/// The page cache.
fn cache_bytes(memory: &ContainerMemoryStats, rss: Option<u64>) -> (bytes: Option<u64>)
    requires
        match rss {
            Some(rss) => memory_rss(*memory) == Some(rss as nat),
            None => memory_rss(*memory) is None,
        },
    ensures
        bytes == memory_cache(*memory),
{
    if let Some(stats) = &memory.stats {
        if let Some(cache) = copied_statistic(stats, "cache") {
            return Some(cache);
        }
        if let Some(cache) = copied_statistic(stats, "total_cache") {
            return Some(cache);
        }
    }
    match (memory.usage, rss) {
        (Some(usage), Some(rss)) => usage.checked_sub(rss),
        _ => None,
    }
}

/// A sum over the first entries is at most the sum over all.
proof fn lemma_sum_of_grows(numbers: Seq<Option<u64>>, n: int)
    requires
        0 <= n <= numbers.len(),
    ensures
        sum_of(numbers.take(n)) <= sum_of(numbers),
    decreases numbers.len(),
{
    if n == numbers.len() {
        assert(numbers.take(n) =~= numbers);
    } else {
        lemma_sum_of_grows(numbers.drop_last(), n);
        assert(numbers.drop_last().take(n) =~= numbers.take(n));
    }
}

/// The sum of the numbers, if it is a number of 64 bits.
fn checked_sum(numbers: &Vec<Option<u64>>) -> (sum: Option<u64>)
    ensures
        match sum {
            Some(sum) => sum == sum_of(numbers@),
            None => sum_of(numbers@) > u64::MAX,
        },
{
    let mut sum: u64 = 0;
    let mut i: usize = 0;
    while i < numbers.len()
        invariant
            i <= numbers@.len(),
            sum == sum_of(numbers@.take(i as int)),
        decreases numbers@.len() - i,
    {
        let number: u64 = match numbers[i] {
            Some(number) => number,
            None => 0,
        };
        proof {
            assert(numbers@.take(i + 1).drop_last() =~= numbers@.take(i as int));
            lemma_sum_of_grows(numbers@, i + 1);
        }
        match sum.checked_add(number) {
            Some(next) => {
                sum = next;
            },
            None => {
                return None;
            },
        }
        i += 1;
    }
    assert(numbers@.take(i as int) =~= numbers@);
    Some(sum)
}

/// The bytes received over each network interface.
fn received_bytes(networks: &StringMap<ContainerNetworkStats>) -> (bytes: Vec<Option<u64>>)
    ensures
        bytes@ == received(networks.entries()),
{
    let mut bytes: Vec<Option<u64>> = Vec::new();
    let mut i: usize = 0;
    while i < networks.len()
        invariant
            i <= networks.entries().len(),
            bytes@ == received(networks.entries()).take(i as int),
        decreases networks.entries().len() - i,
    {
        bytes.push(networks.value_at(i).rx_bytes);
        i += 1;
        assert(bytes@ =~= received(networks.entries()).take(i as int));
    }
    assert(received(networks.entries()).take(i as int) =~= received(networks.entries()));
    bytes
}

/// The bytes sent over each network interface.
fn transmitted_bytes(networks: &StringMap<ContainerNetworkStats>) -> (bytes: Vec<Option<u64>>)
    ensures
        bytes@ == transmitted(networks.entries()),
{
    let mut bytes: Vec<Option<u64>> = Vec::new();
    let mut i: usize = 0;
    while i < networks.len()
        invariant
            i <= networks.entries().len(),
            bytes@ == transmitted(networks.entries()).take(i as int),
        decreases networks.entries().len() - i,
    {
        bytes.push(networks.value_at(i).tx_bytes);
        i += 1;
        assert(bytes@ =~= transmitted(networks.entries()).take(i as int));
    }
    assert(transmitted(networks.entries()).take(i as int) =~= transmitted(networks.entries()));
    bytes
}

impl ContainerStatsResponse {
    /// Whether every sum of the measurement is a number of 64 bits, as [`container_stats`] asks.
    pub fn has_sums_that_fit(&self) -> (fit: bool)
        ensures
            fit == self.sums_fit(),
    {
        let memory_fits = match &self.memory_stats {
            Some(memory) => match resident_bytes(memory) {
                Some(rss) => rss <= u64::MAX as u128,
                None => true,
            },
            None => true,
        };
        let networks_fit = match &self.networks {
            Some(networks) => checked_sum(&received_bytes(networks)).is_some() && checked_sum(
                &transmitted_bytes(networks),
            ).is_some(),
            None => true,
        };
        memory_fits && networks_fit
    }
}

/// Whether `stats` is what a measurement tells, of a container whose id it tells too.
pub open spec fn measured(
    response: ContainerStatsResponse,
    collected_at: CollectedAt,
    stats: ContainerStats,
) -> bool {
    &&& response.id == Some(stats.id)
    &&& stats.name == response.name
    &&& stats.collected_at == collected_at
    &&& stats.cpu_percent == cpu_percent_of(response)
    &&& match response.cpu_stats {
        Some(cpu) => {
            &&& stats.cpu_usage_ns == total_usage(cpu)
            &&& match cpu.cpu_usage {
                Some(usage) => {
                    &&& stats.cpu_usage_system_ns == usage.usage_in_kernelmode
                    &&& stats.cpu_usage_user_ns == usage.usage_in_usermode
                },
                None => stats.cpu_usage_system_ns is None && stats.cpu_usage_user_ns is None,
            }
        },
        None => {
            &&& stats.cpu_usage_ns is None
            &&& stats.cpu_usage_system_ns is None
            &&& stats.cpu_usage_user_ns is None
        },
    }
    &&& match response.memory_stats {
        Some(memory) => {
            &&& stats.memory_limit_bytes == memory.limit
            &&& stats.memory_usage_bytes == memory.usage
            &&& match stats.memory_rss_bytes {
                Some(rss) => memory_rss(memory) == Some(rss as nat),
                None => memory_rss(memory) is None,
            }
            &&& stats.memory_cache_bytes == memory_cache(memory)
        },
        None => {
            &&& stats.memory_limit_bytes is None
            &&& stats.memory_usage_bytes is None
            &&& stats.memory_rss_bytes is None
            &&& stats.memory_cache_bytes is None
        },
    }
    &&& match response.networks {
        Some(networks) => {
            &&& stats.network_rx_bytes == Some(sum_of(received(networks.entries())) as u64)
            &&& stats.network_tx_bytes == Some(sum_of(transmitted(networks.entries())) as u64)
        },
        None => stats.network_rx_bytes is None && stats.network_tx_bytes is None,
    }
}

/// What the container of a measurement consumes, if the measurement tells its id.
pub fn container_stats(response: ContainerStatsResponse, collected_at: CollectedAt) -> (stats:
    Option<ContainerStats>)
    requires
        response.sums_fit(),
    ensures
        match stats {
            Some(stats) => measured(response, collected_at, stats),
            None => response.id is None,
        },
{
    let cpu_percent = calculate_cpu_percent(&response);
    let mut cpu_usage_ns: Option<u64> = None;
    let mut cpu_usage_system_ns: Option<u64> = None;
    let mut cpu_usage_user_ns: Option<u64> = None;
    if let Some(cpu) = &response.cpu_stats {
        cpu_usage_ns = total_cpu_usage(cpu);
        if let Some(usage) = &cpu.cpu_usage {
            cpu_usage_system_ns = usage.usage_in_kernelmode;
            cpu_usage_user_ns = usage.usage_in_usermode;
        }
    }
    let mut memory_limit_bytes: Option<u64> = None;
    let mut memory_usage_bytes: Option<u64> = None;
    let mut memory_rss_bytes: Option<u64> = None;
    let mut memory_cache_bytes: Option<u64> = None;
    if let Some(memory) = &response.memory_stats {
        memory_limit_bytes = memory.limit;
        memory_usage_bytes = memory.usage;
        memory_rss_bytes = match resident_bytes(memory) {
            Some(rss) => Some(rss as u64),
            None => None,
        };
        memory_cache_bytes = cache_bytes(memory, memory_rss_bytes);
    }
    let mut network_rx_bytes: Option<u64> = None;
    let mut network_tx_bytes: Option<u64> = None;
    if let Some(networks) = &response.networks {
        network_rx_bytes = checked_sum(&received_bytes(networks));
        network_tx_bytes = checked_sum(&transmitted_bytes(networks));
    }
    match response.id {
        Some(id) => Some(
            ContainerStats {
                id,
                name: response.name,
                collected_at,
                cpu_percent,
                cpu_usage_ns,
                cpu_usage_system_ns,
                cpu_usage_user_ns,
                memory_limit_bytes,
                memory_usage_bytes,
                memory_rss_bytes,
                memory_cache_bytes,
                network_rx_bytes,
                network_tx_bytes,
            },
        ),
        None => None,
    }
}

// ---------------------------------------------------------------------------------------------
// Laws
// ---------------------------------------------------------------------------------------------

/// Where the page cache is not told, it and the resident memory make up what is used.
pub proof fn law_cache_and_resident_make_up_usage(memory: ContainerMemoryStats)
    requires
        told_cache(memory) is None,
        memory.usage is Some,
        memory_rss(memory) is Some,
    ensures
        memory_cache(memory) is Some <==> memory_rss(memory)->0 <= memory.usage->0,
        memory_cache(memory) matches Some(cache) ==> cache + memory_rss(memory)->0
            == memory.usage->0,
{
}

/// A counter that went down makes the share of the CPU time unknown, and one that stood still
/// makes it zero.
pub proof fn law_share_needs_counters_that_go_up(
    response: ContainerStatsResponse,
    now: ContainerCpuStats,
    before: ContainerCpuStats,
)
    requires
        response.cpu_stats == Some(now),
        response.precpu_stats == Some(before),
        total_usage(now) is Some,
        total_usage(before) is Some,
        now.system_cpu_usage is Some,
        before.system_cpu_usage is Some,
    ensures
        cpu_percent_of(response) is None <==> total_usage(now)->0 < total_usage(before)->0
            || now.system_cpu_usage->0 < before.system_cpu_usage->0,
        cpu_percent_of(response) matches Some(CpuPercent::Share {
            cpu_delta,
            system_delta,
            online_cpus,
        }) ==> cpu_delta > 0 && system_delta > 0,
        total_usage(now) == total_usage(before) && now.system_cpu_usage->0
            >= before.system_cpu_usage->0 ==> cpu_percent_of(response) == Some(CpuPercent::Zero),
{
}

/// The sum without the number at `i`, and that number, are the sum.
proof fn lemma_sum_without(numbers: Seq<Option<u64>>, i: int)
    requires
        0 <= i < numbers.len(),
    ensures
        sum_of(numbers) == sum_of(numbers.remove(i)) + match numbers[i] {
            Some(number) => number as nat,
            None => 0,
        },
    decreases numbers.len(),
{
    if i == numbers.len() - 1 {
        assert(numbers.remove(i) =~= numbers.drop_last());
    } else {
        lemma_sum_without(numbers.drop_last(), i);
        assert(numbers.remove(i).drop_last() =~= numbers.drop_last().remove(i));
        assert(numbers.remove(i).last() == numbers.last());
    }
}

/// The sum does not depend on the order of the numbers.
proof fn lemma_sum_of_rearranged(left: Seq<Option<u64>>, right: Seq<Option<u64>>)
    requires
        left.to_multiset() == right.to_multiset(),
    ensures
        sum_of(left) == sum_of(right),
    decreases left.len(),
{
    broadcast use vstd::seq_lib::group_to_multiset_ensures;

    assert(left.to_multiset().len() == left.len());
    assert(right.to_multiset().len() == right.len());
    if left.len() > 0 {
        let end = left.len() - 1;
        let last = left[end];
        assert(left.contains(last));
        assert(left.to_multiset().count(last) > 0);
        assert(right.to_multiset().count(last) > 0);
        assert(right.contains(last));
        let i = choose|i: int| 0 <= i < right.len() && right[i] == last;
        assert(left.remove(end).to_multiset() =~= right.remove(i).to_multiset());
        lemma_sum_of_rearranged(left.remove(end), right.remove(i));
        lemma_sum_without(left, end);
        lemma_sum_without(right, i);
    }
}

/// The sums over the network interfaces do not depend on the order in which these are walked.
pub proof fn law_network_sums_do_not_depend_on_the_walk(
    left: StringMap<ContainerNetworkStats>,
    right: StringMap<ContainerNetworkStats>,
)
    requires
        left.wf(),
        right.wf(),
        left@ == right@,
    ensures
        sum_of(received(left.entries())) == sum_of(received(right.entries())),
        sum_of(transmitted(left.entries())) == sum_of(transmitted(right.entries())),
{
    string_map::lemma_same_map_same_entries(left.entries(), right.entries());
    order::lemma_mapped_multiset(
        left.entries(),
        right.entries(),
        |network: (Seq<char>, ContainerNetworkStats)| network.1.rx_bytes,
    );
    order::lemma_mapped_multiset(
        left.entries(),
        right.entries(),
        |network: (Seq<char>, ContainerNetworkStats)| network.1.tx_bytes,
    );
    lemma_sum_of_rearranged(received(left.entries()), received(right.entries()));
    lemma_sum_of_rearranged(transmitted(left.entries()), transmitted(right.entries()));
}

/// A measurement is of the container with the very id that it tells, and the CPU times, the memory
/// limit and the memory usage are the numbers that it tells, whatever their size.
pub proof fn law_figures_are_as_measured(
    response: ContainerStatsResponse,
    collected_at: CollectedAt,
    stats: ContainerStats,
)
    requires
        measured(response, collected_at, stats),
    ensures
        response.id == Some(stats.id),
        stats.name == response.name,
        stats.collected_at == collected_at,
        response.cpu_stats is None || response.cpu_stats->0.cpu_usage is None
            ==> stats.cpu_usage_ns is None && stats.cpu_usage_system_ns is None
            && stats.cpu_usage_user_ns is None,
        response.cpu_stats is Some && response.cpu_stats->0.cpu_usage is Some ==> {
            let usage = response.cpu_stats->0.cpu_usage->0;
            &&& stats.cpu_usage_ns == usage.total_usage
            &&& stats.cpu_usage_system_ns == usage.usage_in_kernelmode
            &&& stats.cpu_usage_user_ns == usage.usage_in_usermode
        },
        response.memory_stats is None ==> stats.memory_limit_bytes is None
            && stats.memory_usage_bytes is None && stats.memory_rss_bytes is None
            && stats.memory_cache_bytes is None,
        response.memory_stats matches Some(memory) ==> stats.memory_limit_bytes == memory.limit
            && stats.memory_usage_bytes == memory.usage,
{
}

/// The resident memory is the statistic `rss`, or else `total_rss`, or else the sum of `anon` and
/// `shmem`, which counts as zero where it is missing. Without these it is unknown. No other
/// statistic counts.
pub proof fn law_resident_memory_is_told(
    response: ContainerStatsResponse,
    collected_at: CollectedAt,
    stats: ContainerStats,
    memory: ContainerMemoryStats,
    numbers: StringMap<u64>,
)
    requires
        measured(response, collected_at, stats),
        response.memory_stats == Some(memory),
        memory.stats == Some(numbers),
    ensures
        numbers@.contains_key("rss"@) ==> stats.memory_rss_bytes == Some(numbers@["rss"@]),
        !numbers@.contains_key("rss"@) && numbers@.contains_key("total_rss"@)
            ==> stats.memory_rss_bytes == Some(numbers@["total_rss"@]),
        !numbers@.contains_key("rss"@) && !numbers@.contains_key("total_rss"@)
            && numbers@.contains_key("anon"@) && numbers@.contains_key("shmem"@)
            ==> stats.memory_rss_bytes is Some && stats.memory_rss_bytes->0 == numbers@["anon"@]
            + numbers@["shmem"@],
        !numbers@.contains_key("rss"@) && !numbers@.contains_key("total_rss"@)
            && numbers@.contains_key("anon"@) && !numbers@.contains_key("shmem"@)
            ==> stats.memory_rss_bytes == Some(numbers@["anon"@]),
        !numbers@.contains_key("rss"@) && !numbers@.contains_key("total_rss"@)
            && !numbers@.contains_key("anon"@) ==> stats.memory_rss_bytes is None,
{
}

/// Two measurements that agree on `rss`, `total_rss`, `anon` and `shmem` have the same resident
/// memory; one without statistics has none.
pub proof fn law_resident_memory_depends_on_four_statistics(
    left: ContainerMemoryStats,
    right: ContainerMemoryStats,
)
    requires
        left.stats is Some,
        right.stats is Some,
        forall|key: Seq<char>|
            key == "rss"@ || key == "total_rss"@ || key == "anon"@ || key == "shmem"@ ==> {
                &&& (#[trigger] left.stats->0@.contains_key(key)) == right.stats->0@.contains_key(
                    key,
                )
                &&& left.stats->0@.contains_key(key) ==> left.stats->0@[key]
                    == right.stats->0@[key]
            },
    ensures
        memory_rss(left) == memory_rss(right),
        memory_rss(ContainerMemoryStats { stats: None, ..left }) is None,
{
    assert(left.stats->0@.contains_key("rss"@) == right.stats->0@.contains_key("rss"@));
    assert(left.stats->0@.contains_key("total_rss"@) == right.stats->0@.contains_key(
        "total_rss"@,
    ));
    assert(left.stats->0@.contains_key("anon"@) == right.stats->0@.contains_key("anon"@));
    assert(left.stats->0@.contains_key("shmem"@) == right.stats->0@.contains_key("shmem"@));
}

/// The page cache is the statistic `cache`, or else `total_cache`, or else what is used but not
/// resident, where both are known and no less is used than is resident.
pub proof fn law_page_cache_is_told(
    response: ContainerStatsResponse,
    collected_at: CollectedAt,
    stats: ContainerStats,
    memory: ContainerMemoryStats,
)
    requires
        measured(response, collected_at, stats),
        response.memory_stats == Some(memory),
    ensures
        memory.stats matches Some(numbers) ==> {
            &&& numbers@.contains_key("cache"@) ==> stats.memory_cache_bytes == Some(
                numbers@["cache"@],
            )
            &&& !numbers@.contains_key("cache"@) && numbers@.contains_key("total_cache"@)
                ==> stats.memory_cache_bytes == Some(numbers@["total_cache"@])
        },
        memory.stats is None || !memory.stats->0@.contains_key("cache"@)
            && !memory.stats->0@.contains_key("total_cache"@) ==> {
            &&& stats.memory_usage_bytes is Some && stats.memory_rss_bytes is Some
                && stats.memory_rss_bytes->0 <= stats.memory_usage_bytes->0
                ==> stats.memory_cache_bytes is Some && stats.memory_cache_bytes->0
                + stats.memory_rss_bytes->0 == stats.memory_usage_bytes->0
            &&& stats.memory_usage_bytes is None || stats.memory_rss_bytes is None
                || stats.memory_rss_bytes->0 > stats.memory_usage_bytes->0
                ==> stats.memory_cache_bytes is None
        },
        memory.stats is None ==> stats.memory_rss_bytes is None,
{
}

/// The bytes that pass over one more network interface are added to the sums, each to its own; an
/// interface that does not tell a number adds nothing to its sum. Without an interface the sums are
/// zero, and without networks they are unknown.
pub proof fn law_each_network_adds_its_bytes(
    fewer: ContainerStatsResponse,
    more: ContainerStatsResponse,
    collected_at: CollectedAt,
    fewer_stats: ContainerStats,
    more_stats: ContainerStats,
    name: Seq<char>,
    network: ContainerNetworkStats,
)
    requires
        measured(fewer, collected_at, fewer_stats),
        measured(more, collected_at, more_stats),
        fewer.sums_fit(),
        more.sums_fit(),
        fewer.networks is Some,
        more.networks is Some,
        more.networks->0.entries() == fewer.networks->0.entries().push((name, network)),
    ensures
        fewer_stats.network_rx_bytes is Some && more_stats.network_rx_bytes is Some,
        fewer_stats.network_tx_bytes is Some && more_stats.network_tx_bytes is Some,
        fewer.networks->0.entries().len() == 0 ==> fewer_stats.network_rx_bytes == Some(0u64)
            && fewer_stats.network_tx_bytes == Some(0u64),
        more_stats.network_rx_bytes->0 == fewer_stats.network_rx_bytes->0 + (
        match network.rx_bytes {
            Some(bytes) => bytes as int,
            None => 0,
        }),
        more_stats.network_tx_bytes->0 == fewer_stats.network_tx_bytes->0 + (
        match network.tx_bytes {
            Some(bytes) => bytes as int,
            None => 0,
        }),
{
    let before = fewer.networks->0.entries();
    let after = more.networks->0.entries();
    assert(received(after).drop_last() =~= received(before));
    assert(transmitted(after).drop_last() =~= transmitted(before));
    assert(received(after).last() == network.rx_bytes);
    assert(transmitted(after).last() == network.tx_bytes);
}

/// Without networks the sums are unknown.
pub proof fn law_no_networks_no_sums(
    response: ContainerStatsResponse,
    collected_at: CollectedAt,
    stats: ContainerStats,
)
    requires
        measured(response, collected_at, stats),
    ensures
        response.networks is None <==> stats.network_rx_bytes is None,
        response.networks is None <==> stats.network_tx_bytes is None,
{
}

/// The share of the CPU time is made of how far the two counters went up, in full, and of the
/// number of CPUs: as it is told, or else one for each CPU with a usage of its own, or else one.
pub proof fn law_share_is_made_of_the_increases(
    response: ContainerStatsResponse,
    now: ContainerCpuStats,
    before: ContainerCpuStats,
    now_usage: ContainerCpuUsage,
    before_usage: ContainerCpuUsage,
    now_total: u64,
    before_total: u64,
    now_system: u64,
    before_system: u64,
)
    requires
        response.cpu_stats == Some(now),
        response.precpu_stats == Some(before),
        now.cpu_usage == Some(now_usage),
        before.cpu_usage == Some(before_usage),
        now_usage.total_usage == Some(now_total),
        before_usage.total_usage == Some(before_total),
        now.system_cpu_usage == Some(now_system),
        before.system_cpu_usage == Some(before_system),
    ensures
        now_total < before_total || now_system < before_system ==> cpu_percent_of(response) is None,
        now_total >= before_total && now_system >= before_system && (now_total == before_total
            || now_system == before_system) ==> cpu_percent_of(response) == Some(CpuPercent::Zero),
        now_total > before_total && now_system > before_system ==> {
            let share = cpu_percent_of(response);
            &&& share is Some && share->0 is Share
            &&& share->0->cpu_delta == now_total - before_total
            &&& share->0->system_delta == now_system - before_system
            &&& now.online_cpus matches Some(online) ==> share->0->online_cpus == online
            &&& now.online_cpus is None && now_usage.percpu_usage is Some
                && now_usage.percpu_usage->0@.len() <= u32::MAX ==> share->0->online_cpus
                == now_usage.percpu_usage->0@.len()
            &&& now.online_cpus is None && now_usage.percpu_usage is None
                ==> share->0->online_cpus == 1
        },
        total_usage(now) == Some(now_total),
        now.online_cpus is Some ==> cpus(now) == now.online_cpus,
        now.online_cpus is None && now_usage.percpu_usage is None ==> cpus(now) is None,
{
}

/// A share needs both counters of both measurements; the share of a container is that of its
/// measurement.
pub proof fn law_share_needs_both_measurements(
    response: ContainerStatsResponse,
    collected_at: CollectedAt,
    stats: ContainerStats,
)
    requires
        measured(response, collected_at, stats),
    ensures
        stats.cpu_percent == cpu_percent_of(response),
        stats.cpu_percent is Some ==> {
            &&& response.cpu_stats is Some && response.precpu_stats is Some
            &&& response.cpu_stats->0.cpu_usage is Some
                && response.cpu_stats->0.cpu_usage->0.total_usage is Some
            &&& response.precpu_stats->0.cpu_usage is Some
                && response.precpu_stats->0.cpu_usage->0.total_usage is Some
            &&& response.cpu_stats->0.system_cpu_usage is Some
            &&& response.precpu_stats->0.system_cpu_usage is Some
        },
{
}

/// A measurement has sums that fit unless `anon` and `shmem` have to be added and are too large
/// together, or the bytes of the networks are: numbers that are told alone always fit.
pub proof fn law_told_numbers_fit(response: ContainerStatsResponse)
    requires
        response.memory_stats is None || response.memory_stats->0.stats is None
            || response.memory_stats->0.stats->0@.contains_key("rss"@)
            || response.memory_stats->0.stats->0@.contains_key("total_rss"@)
            || !response.memory_stats->0.stats->0@.contains_key("anon"@)
            || !response.memory_stats->0.stats->0@.contains_key("shmem"@)
            || response.memory_stats->0.stats->0@["anon"@]
            + response.memory_stats->0.stats->0@["shmem"@] <= u64::MAX,
        response.networks matches Some(networks) ==> sum_of(received(networks.entries()))
            <= u64::MAX && sum_of(transmitted(networks.entries())) <= u64::MAX,
    ensures
        response.sums_fit(),
{
}

} // verus!
