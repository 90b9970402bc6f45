//! The metrics of all containers, in the Prometheus text format.
use vstd::prelude::*;

use crate::docker_events::identity::{ContainerIdentity, IdentityView};
use crate::docker_events::stats::{CollectedAt, ContainerStats};
use crate::labels;
use crate::order;
use crate::order::Ranked;
use crate::rfc3339;
use crate::rfc3339::UnixSeconds;
use crate::string_map;
use crate::string_map::StringMap;
use crate::text;

verus! {

/// What stands in front of the samples: of each metric, what it means and of which kind it is.
pub const HEADER: &'static str = "# HELP container_cpu_usage_seconds_total Cumulative cpu time consumed in seconds.\n\
# TYPE container_cpu_usage_seconds_total counter\n\
# HELP container_cpu_system_seconds_total Cumulative system cpu time consumed in seconds.\n\
# TYPE container_cpu_system_seconds_total counter\n\
# HELP container_cpu_user_seconds_total Cumulative user cpu time consumed seconds.\n\
# TYPE container_cpu_user_seconds_total counter\n\
# HELP container_spec_memory_limit_bytes Memory limit for the container in bytes.\n\
# TYPE container_spec_memory_limit_bytes gauge\n\
# HELP container_memory_usage_bytes Current memory usage in bytes.\n\
# TYPE container_memory_usage_bytes gauge\n\
# HELP container_memory_rss Size of RSS in bytes.\n\
# TYPE container_memory_rss gauge\n\
# HELP container_memory_cache Number of bytes of page cache memory.\n\
# TYPE container_memory_cache gauge\n\
# HELP container_network_receive_bytes_total Cumulative count of bytes received.\n\
# TYPE container_network_receive_bytes_total counter\n\
# HELP container_network_transmit_bytes_total Cumulative count of bytes transmitted.\n\
# TYPE container_network_transmit_bytes_total counter\n\
# HELP container_start_time_seconds Start time of the container since Unix epoch in seconds.\n\
# TYPE container_start_time_seconds gauge\n";

/// The value of a sample.
#[derive(Clone, Copy, Debug, PartialEq, Eq)]
pub enum SampleValue {
    /// A time in seconds, given in nanoseconds.
    Nanoseconds(u64),
    Bytes(u64),
    /// A point in time, in seconds since the Unix epoch.
    Time(UnixSeconds),
}

/// One value of one metric of one container.
#[derive(Clone, Debug, PartialEq, Eq)]
pub struct Sample {
    pub name: &'static str,
    pub labels: String,
    pub value: SampleValue,
    /// When the value was measured, in milliseconds since the Unix epoch.
    pub timestamp_ms: Option<u128>,
}

/// The texts and numbers that a [`Sample`] holds.
#[verifier::ext_equal]
pub struct SampleView {
    pub name: Seq<char>,
    pub labels: Seq<char>,
    pub value: SampleValue,
    pub timestamp_ms: Option<nat>,
}

impl View for Sample {
    type V = SampleView;

    open spec fn view(&self) -> SampleView {
        SampleView {
            name: self.name@,
            labels: self.labels@,
            value: self.value,
            timestamp_ms: match self.timestamp_ms {
                Some(timestamp) => Some(timestamp as nat),
                None => None,
            },
        }
    }
}

/// Why the metrics cannot be rendered.
#[derive(Clone, Copy, Debug, PartialEq, Eq, Structural)]
pub enum RenderError {
    /// A measurement was taken before the Unix epoch.
    CollectedBeforeEpoch,
}

impl RenderError {
    /// The error in words.
    pub fn message(&self) -> (text: &'static str)
        ensures
            text@ == "stats collection timestamp is before the Unix epoch"@,
    {
        "stats collection timestamp is before the Unix epoch"
    }
}

// ---------------------------------------------------------------------------------------------
// Which samples there are
// ---------------------------------------------------------------------------------------------

/// The whole milliseconds since the Unix epoch.
pub open spec fn millis_since_epoch(time: CollectedAt) -> Option<nat> {
    match time {
        CollectedAt::BeforeEpoch => None,
        CollectedAt::SinceEpoch { seconds, nanoseconds } => Some(
            seconds as nat * 1_000 + nanoseconds as nat / 1_000_000,
        ),
    }
}

/// A sample, if there is a value.
pub open spec fn optional_sample(
    name: Seq<char>,
    labels: Seq<char>,
    value: Option<SampleValue>,
    timestamp_ms: Option<nat>,
) -> Seq<SampleView> {
    match value {
        Some(value) => seq![SampleView { name, labels, value, timestamp_ms }],
        None => Seq::empty(),
    }
}

pub open spec fn nanoseconds(value: Option<u64>) -> Option<SampleValue> {
    match value {
        Some(value) => Some(SampleValue::Nanoseconds(value)),
        None => None,
    }
}

pub open spec fn bytes(value: Option<u64>) -> Option<SampleValue> {
    match value {
        Some(value) => Some(SampleValue::Bytes(value)),
        None => None,
    }
}

/// When the container was started, if that can be read.
pub open spec fn start_time(container: ContainerIdentity) -> Option<SampleValue> {
    match container.started_at {
        Some(started_at) => match rfc3339::read_unix_seconds(started_at@) {
            Some(time) => Some(SampleValue::Time(time)),
            None => None,
        },
        None => None,
    }
}

/// The samples of a measurement.
pub open spec fn stats_samples(labels: Seq<char>, stats: ContainerStats) -> Seq<SampleView> {
    let at = millis_since_epoch(stats.collected_at);
    optional_sample(
        "container_cpu_usage_seconds_total"@,
        labels,
        nanoseconds(stats.cpu_usage_ns),
        at,
    ) + optional_sample(
        "container_cpu_system_seconds_total"@,
        labels,
        nanoseconds(stats.cpu_usage_system_ns),
        at,
    ) + optional_sample(
        "container_cpu_user_seconds_total"@,
        labels,
        nanoseconds(stats.cpu_usage_user_ns),
        at,
    ) + optional_sample(
        "container_spec_memory_limit_bytes"@,
        labels,
        bytes(stats.memory_limit_bytes),
        at,
    ) + optional_sample(
        "container_memory_usage_bytes"@,
        labels,
        bytes(stats.memory_usage_bytes),
        at,
    ) + optional_sample("container_memory_rss"@, labels, bytes(stats.memory_rss_bytes), at)
        + optional_sample("container_memory_cache"@, labels, bytes(stats.memory_cache_bytes), at)
        + optional_sample(
        "container_network_receive_bytes_total"@,
        labels,
        bytes(stats.network_rx_bytes),
        at,
    ) + optional_sample(
        "container_network_transmit_bytes_total"@,
        labels,
        bytes(stats.network_tx_bytes),
        at,
    )
}

/// The samples of a container: when it was started, and its last measurement.
pub open spec fn container_samples(
    container: ContainerIdentity,
    container_stats: Map<Seq<char>, ContainerStats>,
) -> Seq<SampleView> {
    let labels = labels::container_labels(container);
    optional_sample("container_start_time_seconds"@, labels, start_time(container), None) + if container_stats.contains_key(
    container.id@) {
        stats_samples(labels, container_stats[container.id@])
    } else {
        Seq::empty()
    }
}

/// The samples of the containers, one container after the other.
pub open spec fn all_samples(
    containers: Seq<ContainerIdentity>,
    container_stats: Map<Seq<char>, ContainerStats>,
) -> Seq<SampleView>
    decreases containers.len(),
{
    if containers.len() == 0 {
        Seq::empty()
    } else {
        all_samples(containers.drop_last(), container_stats) + container_samples(
            containers.last(),
            container_stats,
        )
    }
}

/// Whether the container has a measurement from before the Unix epoch.
pub open spec fn measured_before_epoch(
    container: ContainerIdentity,
    container_stats: Map<Seq<char>, ContainerStats>,
) -> bool {
    container_stats.contains_key(container.id@) && container_stats[container.id@].collected_at
        == CollectedAt::BeforeEpoch
}

/// The containers of a map, in the order in which it is walked.
pub open spec fn listed_containers(containers: StringMap<ContainerIdentity>) -> Seq<
    ContainerIdentity,
> {
    containers.entries().map_values(|entry: (Seq<char>, ContainerIdentity)| entry.1)
}

/// Whether a container of the map has a measurement from before the Unix epoch.
pub open spec fn any_measured_before_epoch(
    containers: StringMap<ContainerIdentity>,
    container_stats: Map<Seq<char>, ContainerStats>,
) -> bool {
    exists|i: int|
        0 <= i < listed_containers(containers).len() && measured_before_epoch(
            #[trigger] listed_containers(containers)[i],
            container_stats,
        )
}

/// Whether `left` may stand in front of `right`: by the name, and under one name by the id.
pub open spec fn identity_le(left: IdentityView, right: IdentityView) -> bool {
    if left.name == right.name {
        order::text_le(left.id, right.id)
    } else {
        order::text_le(left.name, right.name)
    }
}

/// Whether `left` may stand in front of `right`.
pub open spec fn container_le(left: ContainerIdentity, right: ContainerIdentity) -> bool {
    identity_le(left@, right@)
}

/// Whether `arranged` are the containers of the map, by their names and then by their ids.
pub open spec fn is_arrangement(
    containers: StringMap<ContainerIdentity>,
    arranged: Seq<ContainerIdentity>,
) -> bool {
    &&& arranged.to_multiset() == listed_containers(containers).to_multiset()
    &&& forall|i: int, j: int|
        0 <= i < j < arranged.len() ==> container_le(#[trigger] arranged[i], #[trigger] arranged[j])
}

impl<'a> Ranked for &'a ContainerIdentity {
    open spec fn at_most(self, other: Self) -> bool {
        container_le(*self, *other)
    }

    proof fn lemma_total(a: Self, b: Self) {
        order::lemma_text_total(a.name@, b.name@);
        order::lemma_text_total(a.id@, b.id@);
    }

    proof fn lemma_transitive(a: Self, b: Self, c: Self) {
        if a.name@ == b.name@ && b.name@ == c.name@ {
            order::lemma_text_transitive(a.id@, b.id@, c.id@);
        } else if a.name@ != b.name@ && b.name@ != c.name@ {
            order::lemma_text_transitive(a.name@, b.name@, c.name@);
            if a.name@ == c.name@ {
                order::lemma_text_antisymmetric(a.name@, b.name@);
            }
        }
    }

    fn compare_at_most(&self, other: &Self) -> (result: bool) {
        if self.name == other.name {
            order::text_at_most(self.id.as_str(), other.id.as_str())
        } else {
            order::text_at_most(self.name.as_str(), other.name.as_str())
        }
    }
}

/// The views of a list of samples.
pub open spec fn sample_views(samples: Seq<Sample>) -> Seq<SampleView> {
    samples.map_values(|sample: Sample| sample@)
}

/// The milliseconds since the Unix epoch.
pub fn unix_timestamp_millis(time: CollectedAt) -> (millis: Result<u128, RenderError>)
    ensures
        match millis {
            Ok(millis) => millis_since_epoch(time) == Some(millis as nat),
            Err(error) => time == CollectedAt::BeforeEpoch && error
                == RenderError::CollectedBeforeEpoch,
        },
{
    match time {
        CollectedAt::BeforeEpoch => Err(RenderError::CollectedBeforeEpoch),
        CollectedAt::SinceEpoch { seconds, nanoseconds } => Ok(
            seconds as u128 * 1_000 + (nanoseconds / 1_000_000) as u128,
        ),
    }
}

/// Adds a sample, if there is a value.
fn push_optional(
    samples: &mut Vec<Sample>,
    name: &'static str,
    labels: &String,
    value: Option<SampleValue>,
    timestamp_ms: Option<u128>,
)
    ensures
        sample_views(final(samples)@) == sample_views(old(samples)@) + optional_sample(
            name@,
            labels@,
            value,
            match timestamp_ms {
                Some(timestamp) => Some(timestamp as nat),
                None => None,
            },
        ),
{
    if let Some(value) = value {
        samples.push(Sample { name, labels: labels.clone(), value, timestamp_ms });
    }
    assert(sample_views(samples@) =~= sample_views(old(samples)@) + optional_sample(
        name@,
        labels@,
        value,
        match timestamp_ms {
            Some(timestamp) => Some(timestamp as nat),
            None => None,
        },
    ));
}

fn some_nanoseconds(value: Option<u64>) -> (result: Option<SampleValue>)
    ensures
        result == nanoseconds(value),
{
    match value {
        Some(value) => Some(SampleValue::Nanoseconds(value)),
        None => None,
    }
}

fn some_bytes(value: Option<u64>) -> (result: Option<SampleValue>)
    ensures
        result == bytes(value),
{
    match value {
        Some(value) => Some(SampleValue::Bytes(value)),
        None => None,
    }
}

/// The samples of a measurement, if it was not taken before the Unix epoch.
fn samples_of_stats(labels: &String, stats: &ContainerStats) -> (result: Result<
    Vec<Sample>,
    RenderError,
>)
    ensures
        match result {
            Ok(samples) => sample_views(samples@) == stats_samples(labels@, *stats)
                && stats.collected_at != CollectedAt::BeforeEpoch,
            Err(_) => stats.collected_at == CollectedAt::BeforeEpoch,
        },
{
    let at = match unix_timestamp_millis(stats.collected_at) {
        Ok(millis) => Some(millis),
        Err(error) => {
            return Err(error);
        },
    };
    let mut samples: Vec<Sample> = Vec::new();
    push_optional(
        &mut samples,
        "container_cpu_usage_seconds_total",
        labels,
        some_nanoseconds(stats.cpu_usage_ns),
        at,
    );
    assert(sample_views(samples@) =~= optional_sample(
        "container_cpu_usage_seconds_total"@,
        labels@,
        nanoseconds(stats.cpu_usage_ns),
        millis_since_epoch(stats.collected_at),
    ));
    push_optional(
        &mut samples,
        "container_cpu_system_seconds_total",
        labels,
        some_nanoseconds(stats.cpu_usage_system_ns),
        at,
    );
    push_optional(
        &mut samples,
        "container_cpu_user_seconds_total",
        labels,
        some_nanoseconds(stats.cpu_usage_user_ns),
        at,
    );
    push_optional(
        &mut samples,
        "container_spec_memory_limit_bytes",
        labels,
        some_bytes(stats.memory_limit_bytes),
        at,
    );
    push_optional(
        &mut samples,
        "container_memory_usage_bytes",
        labels,
        some_bytes(stats.memory_usage_bytes),
        at,
    );
    push_optional(
        &mut samples,
        "container_memory_rss",
        labels,
        some_bytes(stats.memory_rss_bytes),
        at,
    );
    push_optional(
        &mut samples,
        "container_memory_cache",
        labels,
        some_bytes(stats.memory_cache_bytes),
        at,
    );
    push_optional(
        &mut samples,
        "container_network_receive_bytes_total",
        labels,
        some_bytes(stats.network_rx_bytes),
        at,
    );
    push_optional(
        &mut samples,
        "container_network_transmit_bytes_total",
        labels,
        some_bytes(stats.network_tx_bytes),
        at,
    );
    Ok(samples)
}

/// Adds the samples of a container, if its measurement was not taken before the Unix epoch.
fn push_container_samples(
    samples: &mut Vec<Sample>,
    container: &ContainerIdentity,
    container_stats: &StringMap<ContainerStats>,
) -> (result: Result<(), RenderError>)
    ensures
        result is Err <==> measured_before_epoch(*container, container_stats@),
        result is Ok ==> sample_views(final(samples)@) == sample_views(old(samples)@)
            + container_samples(*container, container_stats@),
{
    let labels = labels::prometheus_container_labels(container);
    let started = match &container.started_at {
        Some(started_at) => match rfc3339::parse_rfc3339_unix_seconds(started_at.as_str()) {
            Some(time) => Some(SampleValue::Time(time)),
            None => None,
        },
        None => None,
    };
    push_optional(samples, "container_start_time_seconds", &labels, started, None);
    let mut measured: Vec<Sample> = match container_stats.get(container.id.as_str()) {
        Some(stats) => match samples_of_stats(&labels, stats) {
            Ok(measured) => measured,
            Err(error) => {
                return Err(error);
            },
        },
        None => Vec::new(),
    };
    let ghost before = sample_views(samples@);
    let ghost added = sample_views(measured@);
    samples.append(&mut measured);
    proof {
        assert(sample_views(samples@) =~= before + added);
        assert(sample_views(samples@) =~= sample_views(old(samples)@) + container_samples(
            *container,
            container_stats@,
        ));
    }
    Ok(())
}

/// The containers of a map, by their names and then by their ids.
fn arrange(containers: &StringMap<ContainerIdentity>) -> (arranged: Vec<&ContainerIdentity>)
    ensures
        is_arrangement(
            *containers,
            arranged@.map_values(|container: &ContainerIdentity| *container),
        ),
{
    let mut list: Vec<&ContainerIdentity> = Vec::new();
    let mut i: usize = 0;
    let ghost value_of = |container: &ContainerIdentity| *container;
    while i < containers.len()
        invariant
            i <= containers.entries().len(),
            list@.len() == i,
            forall|j: int| 0 <= j < i ==> *(#[trigger] list@[j]) == containers.entries()[j].1,
        decreases containers.entries().len() - i,
    {
        list.push(containers.value_at(i));
        i += 1;
    }
    assert(list@.map_values(value_of) =~= listed_containers(*containers));
    let arranged = order::sort(list);
    proof {
        order::lemma_mapped_multiset(list@, arranged@, value_of);
        let values = arranged@.map_values(value_of);
        assert forall|i: int, j: int| 0 <= i < j < values.len() implies container_le(
            #[trigger] values[i],
            #[trigger] values[j],
        ) by {
            assert(arranged@[i].at_most(arranged@[j]));
        }
    }
    arranged
}

/// The samples of all containers: by the names of the containers and then by their ids, of each
/// when it was started and then its last measurement.
pub fn prometheus_samples(
    containers: &StringMap<ContainerIdentity>,
    container_stats: &StringMap<ContainerStats>,
) -> (samples: Result<Vec<Sample>, RenderError>)
    ensures
        samples is Err <==> any_measured_before_epoch(*containers, container_stats@),
        samples matches Ok(samples) ==> exists|arranged: Seq<ContainerIdentity>| #[trigger]
            is_arrangement(*containers, arranged) && sample_views(samples@) == all_samples(
                arranged,
                container_stats@,
            ),
{
    let arranged = arrange(containers);
    let ghost value_of = |container: &ContainerIdentity| *container;
    let ghost order = arranged@.map_values(value_of);
    proof {
        lemma_arrangement_has_the_same(*containers, order);
    }
    let mut samples: Vec<Sample> = Vec::new();
    let mut i: usize = 0;
    assert(sample_views(samples@) =~= all_samples(order.take(0), container_stats@));
    while i < arranged.len()
        invariant
            i <= arranged@.len(),
            order == arranged@.map_values(value_of),
            value_of == |container: &ContainerIdentity| *container,
            sample_views(samples@) == all_samples(order.take(i as int), container_stats@),
            forall|j: int|
                0 <= j < i ==> !measured_before_epoch(#[trigger] order[j], container_stats@),
            forall|j: int|
                0 <= j < order.len() ==> listed_containers(*containers).contains(
                    #[trigger] order[j],
                ),
        decreases arranged@.len() - i,
    {
        let container = arranged[i];
        assert(*container == order[i as int]);
        assert(order.take(i + 1).drop_last() =~= order.take(i as int));
        match push_container_samples(&mut samples, container, container_stats) {
            Ok(()) => {},
            Err(error) => {
                assert(listed_containers(*containers).contains(order[i as int]));
                return Err(error);
            },
        }
        i += 1;
    }
    proof {
        assert(order.take(i as int) =~= order);
        assert(is_arrangement(*containers, order));
        assert forall|j: int| 0 <= j < listed_containers(*containers).len() implies
            !measured_before_epoch(
            #[trigger] listed_containers(*containers)[j],
            container_stats@,
        ) by {
            assert(order.contains(listed_containers(*containers)[j]));
        }
    }
    Ok(samples)
}

/// An arrangement of the containers of a map holds these and no others.
pub proof fn lemma_arrangement_has_the_same(
    containers: StringMap<ContainerIdentity>,
    arranged: Seq<ContainerIdentity>,
)
    requires
        is_arrangement(containers, arranged),
    ensures
        forall|i: int|
            0 <= i < arranged.len() ==> listed_containers(containers).contains(
                #[trigger] arranged[i],
            ),
        forall|i: int|
            0 <= i < listed_containers(containers).len() ==> arranged.contains(
                #[trigger] listed_containers(containers)[i],
            ),
{
    broadcast use vstd::seq_lib::group_to_multiset_ensures;

    let listed = listed_containers(containers);
    assert forall|i: int| 0 <= i < arranged.len() implies listed.contains(#[trigger] arranged[i]) by {
        assert(arranged.contains(arranged[i]));
        assert(arranged.to_multiset().count(arranged[i]) > 0);
        assert(listed.to_multiset().count(arranged[i]) > 0);
    }
    assert forall|i: int| 0 <= i < listed.len() implies arranged.contains(#[trigger] listed[i]) by {
        assert(listed.contains(listed[i]));
        assert(listed.to_multiset().count(listed[i]) > 0);
        assert(arranged.to_multiset().count(listed[i]) > 0);
    }
}

// ---------------------------------------------------------------------------------------------
// The text
// ---------------------------------------------------------------------------------------------

/// A sample as a line: the name, the labels in braces, the value and, if there is one, the time
/// stamp.
pub open spec fn sample_line(
    name: Seq<char>,
    labels: Seq<char>,
    value: Seq<char>,
    timestamp_ms: Option<nat>,
) -> Seq<char> {
    name + seq!['{'] + labels + seq!['}', ' '] + value + (match timestamp_ms {
        Some(timestamp) => seq![' '] + text::decimal(timestamp),
        None => Seq::empty(),
    }) + seq!['\n']
}

/// The lines of the samples, each with the text of its value.
pub open spec fn sample_lines(samples: Seq<SampleView>, values: Seq<Seq<char>>) -> Seq<char>
    decreases samples.len(),
{
    if samples.len() == 0 {
        Seq::empty()
    } else {
        let sample = samples.last();
        sample_lines(samples.drop_last(), values.drop_last()) + sample_line(
            sample.name,
            sample.labels,
            values.last(),
            sample.timestamp_ms,
        )
    }
}

/// Adds the line of a sample with a time stamp.
pub fn push_prometheus_sample(
    metrics: &mut String,
    name: &str,
    labels: &str,
    value: &str,
    timestamp_ms: u128,
)
    ensures
        final(metrics)@ == old(metrics)@ + sample_line(
            name@,
            labels@,
            value@,
            Some(timestamp_ms as nat),
        ),
{
    metrics.append(name);
    metrics.push('{');
    metrics.append(labels);
    metrics.push('}');
    metrics.push(' ');
    metrics.append(value);
    metrics.push(' ');
    text::push_decimal(metrics, timestamp_ms);
    metrics.push('\n');
    assert(metrics@ =~= old(metrics)@ + sample_line(
        name@,
        labels@,
        value@,
        Some(timestamp_ms as nat),
    ));
}

/// Adds the line of a sample without a time stamp.
pub fn push_prometheus_sample_without_timestamp(
    metrics: &mut String,
    name: &str,
    labels: &str,
    value: &str,
)
    ensures
        final(metrics)@ == old(metrics)@ + sample_line(name@, labels@, value@, None),
{
    metrics.append(name);
    metrics.push('{');
    metrics.append(labels);
    metrics.push('}');
    metrics.push(' ');
    metrics.append(value);
    metrics.push('\n');
    assert(metrics@ =~= old(metrics)@ + sample_line(name@, labels@, value@, None));
}

/// Whether each text is one that `format` may give for the value of the sample.
pub open spec fn are_written_values<F: Fn(SampleValue) -> String>(
    format: F,
    samples: Seq<SampleView>,
    values: Seq<String>,
) -> bool {
    &&& values.len() == samples.len()
    &&& forall|i: int|
        0 <= i < samples.len() ==> call_ensures(
            format,
            (samples[i].value,),
            #[trigger] values[i],
        )
}

/// Whether `metrics` is the header and then a line for each sample.
pub open spec fn is_rendering<F: Fn(SampleValue) -> String>(
    format: F,
    samples: Seq<SampleView>,
    values: Seq<String>,
    metrics: Seq<char>,
) -> bool {
    are_written_values(format, samples, values) && metrics == HEADER@ + sample_lines(
        samples,
        text::texts(values),
    )
}

/// Writes the samples, each value as `format` writes it.
pub fn write_samples<F: Fn(SampleValue) -> String>(samples: &Vec<Sample>, format: F) -> (metrics:
    String)
    requires
        forall|value: SampleValue| #[trigger] call_requires(format, (value,)),
    ensures
        exists|values: Seq<String>| #[trigger]
            is_rendering(format, sample_views(samples@), values, metrics@),
{
    let mut metrics = HEADER.to_string();
    let ghost mut values: Seq<String> = Seq::empty();
    let ghost views = sample_views(samples@);
    let mut i: usize = 0;
    assert(views.take(0) =~= Seq::empty());
    assert(metrics@ =~= HEADER@ + sample_lines(views.take(0), text::texts(values)));
    while i < samples.len()
        invariant
            i <= samples@.len(),
            views == sample_views(samples@),
            forall|value: SampleValue| #[trigger] call_requires(format, (value,)),
            are_written_values(format, views.take(i as int), values),
            metrics@ == HEADER@ + sample_lines(views.take(i as int), text::texts(values)),
        decreases samples@.len() - i,
    {
        let sample = &samples[i];
        let value = format(sample.value);
        let ghost before = metrics@;
        let ghost values_before = values;
        match sample.timestamp_ms {
            Some(timestamp) => push_prometheus_sample(
                &mut metrics,
                sample.name,
                sample.labels.as_str(),
                value.as_str(),
                timestamp,
            ),
            None => push_prometheus_sample_without_timestamp(
                &mut metrics,
                sample.name,
                sample.labels.as_str(),
                value.as_str(),
            ),
        }
        proof {
            values = values.push(value);
            let now = views.take(i + 1);
            assert(now.drop_last() =~= views.take(i as int));
            assert(now.last() == sample@);
            assert(text::texts(values).drop_last() =~= text::texts(values_before));
            assert(text::texts(values).last() == value@);
            assert(metrics@ =~= HEADER@ + sample_lines(now, text::texts(values)));
            assert forall|j: int| 0 <= j < now.len() implies call_ensures(
                format,
                (now[j].value,),
                #[trigger] values[j],
            ) by {
                if j < i {
                    assert(values[j] == values_before[j]);
                    assert(now[j] == views.take(i as int)[j]);
                }
            }
        }
        i += 1;
    }
    proof {
        assert(views.take(i as int) =~= views);
        assert(is_rendering(format, views, values, metrics@));
    }
    metrics
}

/// Whether `metrics` is what is exposed of the containers: the header, and the samples of the
/// containers in the order of `arranged`, with the texts `values`.
pub open spec fn is_exposition<F: Fn(SampleValue) -> String>(
    containers: StringMap<ContainerIdentity>,
    container_stats: Map<Seq<char>, ContainerStats>,
    format: F,
    arranged: Seq<ContainerIdentity>,
    values: Seq<String>,
    metrics: Seq<char>,
) -> bool {
    is_arrangement(containers, arranged) && is_rendering(
        format,
        all_samples(arranged, container_stats),
        values,
        metrics,
    )
}

/// Whether `metrics` may be exposed of the containers.
pub open spec fn exposes<F: Fn(SampleValue) -> String>(
    containers: StringMap<ContainerIdentity>,
    container_stats: Map<Seq<char>, ContainerStats>,
    format: F,
    metrics: Seq<char>,
) -> bool {
    exists|arranged: Seq<ContainerIdentity>, values: Seq<String>| #[trigger]
        is_exposition(containers, container_stats, format, arranged, values, metrics)
}

/// Renders the metrics of all containers, each value as `format` writes it.
pub fn render_prometheus_metrics<F: Fn(SampleValue) -> String>(
    containers: &StringMap<ContainerIdentity>,
    container_stats: &StringMap<ContainerStats>,
    format: F,
) -> (rendered: Result<String, RenderError>)
    requires
        forall|value: SampleValue| #[trigger] call_requires(format, (value,)),
    ensures
        match rendered {
            Ok(metrics) => !any_measured_before_epoch(*containers, container_stats@) && exposes(
                *containers,
                container_stats@,
                format,
                metrics@,
            ),
            Err(_) => any_measured_before_epoch(*containers, container_stats@),
        },
{
    match prometheus_samples(containers, container_stats) {
        Ok(samples) => {
            let metrics = write_samples(&samples, format);
            proof {
                let arranged = choose|arranged: Seq<ContainerIdentity>| #[trigger]
                    is_arrangement(*containers, arranged) && sample_views(samples@) == all_samples(
                        arranged,
                        container_stats@,
                    );
                let values = choose|values: Seq<String>| #[trigger]
                    is_rendering(format, sample_views(samples@), values, metrics@);
                assert(is_exposition(
                    *containers,
                    container_stats@,
                    format,
                    arranged,
                    values,
                    metrics@,
                ));
            }
            let rendered: Result<String, RenderError> = Ok(metrics);
            assert(rendered->Ok_0@ == metrics@);
            rendered
        },
        Err(error) => Err(error),
    }
}

// ---------------------------------------------------------------------------------------------
// Laws
// ---------------------------------------------------------------------------------------------

/// Whether each container stands under its id.
pub open spec fn keyed_by_id(containers: Map<Seq<char>, ContainerIdentity>) -> bool {
    forall|id: Seq<char>| #[trigger] containers.contains_key(id) ==> containers[id].id@ == id
}

/// The containers are arranged in one way, whatever the order in which the map is walked.
pub proof fn law_arrangement_is_unique(
    left: StringMap<ContainerIdentity>,
    right: StringMap<ContainerIdentity>,
    left_arranged: Seq<ContainerIdentity>,
    right_arranged: Seq<ContainerIdentity>,
)
    requires
        left.wf(),
        right.wf(),
        left@ == right@,
        keyed_by_id(left@),
        is_arrangement(left, left_arranged),
        is_arrangement(right, right_arranged),
    ensures
        left_arranged == right_arranged,
{
    string_map::lemma_same_map_same_entries(left.entries(), right.entries());
    order::lemma_mapped_multiset(
        left.entries(),
        right.entries(),
        |entry: (Seq<char>, ContainerIdentity)| entry.1,
    );
    string_map::lemma_entries_map(left.entries());
    lemma_arrangement_has_the_same(left, left_arranged);
    assert forall|i: int, j: int|
        0 <= i < left_arranged.len() && 0 <= j < left_arranged.len() && container_le(
            #[trigger] left_arranged[i],
            #[trigger] left_arranged[j],
        ) && container_le(left_arranged[j], left_arranged[i]) implies left_arranged[i]
        == left_arranged[j] by {
        let a = left_arranged[i];
        let b = left_arranged[j];
        lemma_le_both_ways(a@, b@);
        let k = lemma_key_of_arranged(left, left_arranged, i);
        let l = lemma_key_of_arranged(left, left_arranged, j);
    }
    order::lemma_sorted_is_unique(
        left_arranged,
        right_arranged,
        |a: ContainerIdentity, b: ContainerIdentity| container_le(a, b),
    );
}

/// Containers that may stand in front of each other have the same id.
proof fn lemma_le_both_ways(left: IdentityView, right: IdentityView)
    requires
        identity_le(left, right),
        identity_le(right, left),
    ensures
        left.id == right.id,
{
    if left.name != right.name {
        order::lemma_text_antisymmetric(left.name, right.name);
    }
    order::lemma_text_antisymmetric(left.id, right.id);
}

/// A container of an arrangement stands in the map, under its id.
proof fn lemma_key_of_arranged(
    containers: StringMap<ContainerIdentity>,
    arranged: Seq<ContainerIdentity>,
    i: int,
) -> (key: Seq<char>)
    requires
        containers.wf(),
        keyed_by_id(containers@),
        is_arrangement(containers, arranged),
        0 <= i < arranged.len(),
    ensures
        key == arranged[i].id@,
        containers@.contains_key(key),
        containers@[key] == arranged[i],
{
    string_map::lemma_entries_map(containers.entries());
    lemma_arrangement_has_the_same(containers, arranged);
    let listed = listed_containers(containers);
    let p = choose|p: int| 0 <= p < listed.len() && listed[p] == arranged[i];
    assert(containers.entries()[p].1 == arranged[i]);
    assert(containers@.contains_key(containers.entries()[p].0));
    containers.entries()[p].0
}

/// Whether the two maps hold the same containers under the same keys, whatever the order of their
/// labels.
pub open spec fn same_containers(
    left: Map<Seq<char>, ContainerIdentity>,
    right: Map<Seq<char>, ContainerIdentity>,
) -> bool {
    &&& left.dom() == right.dom()
    &&& forall|id: Seq<char>| #[trigger] left.contains_key(id) ==> left[id]@ == right[id]@
}

/// Whether the labels of each container are well formed.
pub open spec fn labels_are_wf(containers: Map<Seq<char>, ContainerIdentity>) -> bool {
    forall|id: Seq<char>| #[trigger] containers.contains_key(id) ==> containers[id].labels.wf()
}

/// Whether two measurements tell the same figures of the same point in time.
pub open spec fn same_figures(left: ContainerStats, right: ContainerStats) -> bool {
    &&& left.collected_at == right.collected_at
    &&& left.cpu_usage_ns == right.cpu_usage_ns
    &&& left.cpu_usage_system_ns == right.cpu_usage_system_ns
    &&& left.cpu_usage_user_ns == right.cpu_usage_user_ns
    &&& left.memory_limit_bytes == right.memory_limit_bytes
    &&& left.memory_usage_bytes == right.memory_usage_bytes
    &&& left.memory_rss_bytes == right.memory_rss_bytes
    &&& left.memory_cache_bytes == right.memory_cache_bytes
    &&& left.network_rx_bytes == right.network_rx_bytes
    &&& left.network_tx_bytes == right.network_tx_bytes
}

/// Whether the measurements agree on every one of the ids: both have none, or both the same
/// figures.
pub open spec fn same_stats_of(
    ids: Set<Seq<char>>,
    left: Map<Seq<char>, ContainerStats>,
    right: Map<Seq<char>, ContainerStats>,
) -> bool {
    forall|id: Seq<char>| #[trigger]
        ids.contains(id) ==> {
            &&& left.contains_key(id) == right.contains_key(id)
            &&& left.contains_key(id) ==> same_figures(left[id], right[id])
        }
}

/// Whether `format` has one text for each value.
pub open spec fn has_one_text_for_each_value<F: Fn(SampleValue) -> String>(format: F) -> bool {
    forall|value: SampleValue, a: String, b: String| #[trigger]
        call_ensures(format, (value,), a) && #[trigger] call_ensures(format, (value,), b) ==> a@
            == b@
}

/// The samples depend on the containers and on their measurements alone, however the containers
/// are arranged from the two maps.
pub proof fn law_samples_do_not_depend_on_the_walk(
    left: StringMap<ContainerIdentity>,
    right: StringMap<ContainerIdentity>,
    left_stats: Map<Seq<char>, ContainerStats>,
    right_stats: Map<Seq<char>, ContainerStats>,
    left_arranged: Seq<ContainerIdentity>,
    right_arranged: Seq<ContainerIdentity>,
)
    requires
        left.wf(),
        right.wf(),
        labels_are_wf(left@),
        labels_are_wf(right@),
        keyed_by_id(left@),
        same_containers(left@, right@),
        same_stats_of(left@.dom(), left_stats, right_stats),
        is_arrangement(left, left_arranged),
        is_arrangement(right, right_arranged),
    ensures
        any_measured_before_epoch(left, left_stats) == any_measured_before_epoch(
            right,
            right_stats,
        ),
        all_samples(left_arranged, left_stats) == all_samples(right_arranged, right_stats),
{
    lemma_early_measurement_in_both(left, right, left_stats, right_stats);
    lemma_early_measurement_in_both(right, left, right_stats, left_stats);
    lemma_arranged_alike(left, right, left_arranged, right_arranged);
    lemma_samples_alike(left, right, left_stats, right_stats, left_arranged, right_arranged);
}

/// What is rendered depends on the containers and on their measurements alone. Neither the order in
/// which the maps are walked, nor that of the labels of a container, nor a measurement of a
/// container that is not there makes a difference: both renderings fail, or both are the same text.
pub proof fn law_rendering_does_not_depend_on_the_walk<F: Fn(SampleValue) -> String>(
    left: StringMap<ContainerIdentity>,
    right: StringMap<ContainerIdentity>,
    left_stats: Map<Seq<char>, ContainerStats>,
    right_stats: Map<Seq<char>, ContainerStats>,
    format: F,
)
    requires
        left.wf(),
        right.wf(),
        labels_are_wf(left@),
        labels_are_wf(right@),
        keyed_by_id(left@),
        same_containers(left@, right@),
        same_stats_of(left@.dom(), left_stats, right_stats),
        has_one_text_for_each_value(format),
    ensures
        any_measured_before_epoch(left, left_stats) == any_measured_before_epoch(
            right,
            right_stats,
        ),
        forall|left_metrics: Seq<char>, right_metrics: Seq<char>| #[trigger]
            exposes(left, left_stats, format, left_metrics) && #[trigger] exposes(
                right,
                right_stats,
                format,
                right_metrics,
            ) ==> left_metrics == right_metrics,
{
    lemma_early_measurement_in_both(left, right, left_stats, right_stats);
    lemma_early_measurement_in_both(right, left, right_stats, left_stats);
    assert forall|left_metrics: Seq<char>, right_metrics: Seq<char>| #[trigger]
        exposes(left, left_stats, format, left_metrics) && #[trigger] exposes(
            right,
            right_stats,
            format,
            right_metrics,
        ) implies left_metrics == right_metrics by {
        let (left_arranged, left_values) = choose|
            arranged: Seq<ContainerIdentity>,
            values: Seq<String>,
        | #[trigger]
            is_exposition(left, left_stats, format, arranged, values, left_metrics);
        let (right_arranged, right_values) = choose|
            arranged: Seq<ContainerIdentity>,
            values: Seq<String>,
        | #[trigger]
            is_exposition(right, right_stats, format, arranged, values, right_metrics);
        law_samples_do_not_depend_on_the_walk(
            left,
            right,
            left_stats,
            right_stats,
            left_arranged,
            right_arranged,
        );
        lemma_values_alike(
            format,
            all_samples(left_arranged, left_stats),
            left_values,
            right_values,
        );
    }
}

/// A measurement from before the epoch on the left is one on the right.
proof fn lemma_early_measurement_in_both(
    left: StringMap<ContainerIdentity>,
    right: StringMap<ContainerIdentity>,
    left_stats: Map<Seq<char>, ContainerStats>,
    right_stats: Map<Seq<char>, ContainerStats>,
)
    requires
        left.wf(),
        right.wf(),
        keyed_by_id(left@),
        same_containers(left@, right@),
        same_stats_of(left@.dom(), left_stats, right_stats),
    ensures
        any_measured_before_epoch(left, left_stats) ==> any_measured_before_epoch(
            right,
            right_stats,
        ),
{
    string_map::lemma_entries_map(left.entries());
    string_map::lemma_entries_map(right.entries());
    if any_measured_before_epoch(left, left_stats) {
        let listed = listed_containers(left);
        let i = choose|i: int|
            0 <= i < listed.len() && measured_before_epoch(#[trigger] listed[i], left_stats);
        let id = left.entries()[i].0;
        assert(left@.contains_key(id));
        assert(left@[id] == listed[i]);
        assert(left@.dom().contains(id));
        assert(right@.dom().contains(id));
        assert(right@.contains_key(id));
        let j = choose|j: int|
            0 <= j < right.entries().len() && (#[trigger] right.entries()[j]).0 == id;
        assert(listed_containers(right)[j] == right@[id]);
        assert(left@[id]@.id == right@[id]@.id);
        assert(measured_before_epoch(listed_containers(right)[j], right_stats));
    }
}

/// Maps of the same containers are arranged alike.
proof fn lemma_arranged_alike(
    left: StringMap<ContainerIdentity>,
    right: StringMap<ContainerIdentity>,
    left_arranged: Seq<ContainerIdentity>,
    right_arranged: Seq<ContainerIdentity>,
)
    requires
        left.wf(),
        right.wf(),
        keyed_by_id(left@),
        same_containers(left@, right@),
        is_arrangement(left, left_arranged),
        is_arrangement(right, right_arranged),
    ensures
        left_arranged.len() == right_arranged.len(),
        forall|i: int|
            0 <= i < left_arranged.len() ==> (#[trigger] left_arranged[i])@ == right_arranged[i]@,
{
    let view_of = |container: ContainerIdentity| container@;
    let value_of = |entry: (Seq<char>, IdentityView)| entry.1;
    let left_entries = string_map::mapped_entries(left.entries(), view_of);
    let right_entries = string_map::mapped_entries(right.entries(), view_of);
    string_map::lemma_mapped_entries(left.entries(), view_of);
    string_map::lemma_mapped_entries(right.entries(), view_of);
    assert(left@.map_values(view_of) =~= right@.map_values(view_of)) by {
        assert forall|id: Seq<char>| #[trigger] left@.contains_key(id) implies left@.map_values(
            view_of,
        )[id] == right@.map_values(view_of)[id] by {
            assert(right@.dom().contains(id));
        }
    }
    string_map::lemma_same_map_same_entries(left_entries, right_entries);
    order::lemma_mapped_multiset(left_entries, right_entries, value_of);
    order::lemma_mapped_multiset(left_arranged, listed_containers(left), view_of);
    order::lemma_mapped_multiset(right_arranged, listed_containers(right), view_of);
    assert(left_entries.map_values(value_of) =~= listed_containers(left).map_values(view_of));
    assert(right_entries.map_values(value_of) =~= listed_containers(right).map_values(view_of));
    let left_views = left_arranged.map_values(view_of);
    let right_views = right_arranged.map_values(view_of);
    let at_most = |a: IdentityView, b: IdentityView| identity_le(a, b);
    assert forall|i: int, j: int| 0 <= i < j < left_views.len() implies at_most(
        #[trigger] left_views[i],
        #[trigger] left_views[j],
    ) by {
        assert(container_le(left_arranged[i], left_arranged[j]));
    }
    assert forall|i: int, j: int| 0 <= i < j < right_views.len() implies at_most(
        #[trigger] right_views[i],
        #[trigger] right_views[j],
    ) by {
        assert(container_le(right_arranged[i], right_arranged[j]));
    }
    assert forall|i: int, j: int|
        0 <= i < left_views.len() && 0 <= j < left_views.len() && at_most(
            #[trigger] left_views[i],
            #[trigger] left_views[j],
        ) && at_most(left_views[j], left_views[i]) implies left_views[i] == left_views[j] by {
        lemma_le_both_ways(left_views[i], left_views[j]);
        let k = lemma_key_of_arranged(left, left_arranged, i);
        let l = lemma_key_of_arranged(left, left_arranged, j);
        assert(left_arranged[i] == left_arranged[j]);
    }
    order::lemma_sorted_is_unique(left_views, right_views, at_most);
    assert(left_views.len() == left_arranged.len() && right_views.len() == right_arranged.len());
    assert forall|i: int| 0 <= i < left_arranged.len() implies (#[trigger] left_arranged[i])@
        == right_arranged[i]@ by {
        assert(left_views[i] == right_views[i]);
    }
}

/// The same containers with the same measurements have the same samples.
proof fn lemma_samples_alike(
    left: StringMap<ContainerIdentity>,
    right: StringMap<ContainerIdentity>,
    left_stats: Map<Seq<char>, ContainerStats>,
    right_stats: Map<Seq<char>, ContainerStats>,
    left_arranged: Seq<ContainerIdentity>,
    right_arranged: Seq<ContainerIdentity>,
)
    requires
        left.wf(),
        right.wf(),
        labels_are_wf(left@),
        labels_are_wf(right@),
        keyed_by_id(left@),
        same_containers(left@, right@),
        same_stats_of(left@.dom(), left_stats, right_stats),
        is_arrangement(left, left_arranged),
        is_arrangement(right, right_arranged),
        left_arranged.len() == right_arranged.len(),
        forall|i: int|
            0 <= i < left_arranged.len() ==> (#[trigger] left_arranged[i])@ == right_arranged[i]@,
    ensures
        all_samples(left_arranged, left_stats) == all_samples(right_arranged, right_stats),
{
    assert(keyed_by_id(right@)) by {
        assert forall|id: Seq<char>| #[trigger] right@.contains_key(id) implies right@[id].id@
            == id by {
            assert(left@.dom().contains(id));
            assert(left@.contains_key(id));
            assert(left@[id]@.id == right@[id]@.id);
        }
    }
    assert forall|i: int| 0 <= i < left_arranged.len() implies container_samples(
        #[trigger] left_arranged[i],
        left_stats,
    ) == container_samples(right_arranged[i], right_stats) by {
        let id = lemma_key_of_arranged(left, left_arranged, i);
        let right_id = lemma_key_of_arranged(right, right_arranged, i);
        assert(left@.dom().contains(id));
        assert(left_arranged[i]@ == right_arranged[i]@);
        assert(left_arranged[i]@.id == right_arranged[i]@.id);
        lemma_container_samples_alike(
            left_arranged[i],
            right_arranged[i],
            left_stats,
            right_stats,
        );
    }
    lemma_all_samples_alike(left_arranged, right_arranged, left_stats, right_stats);
}

proof fn lemma_container_samples_alike(
    left: ContainerIdentity,
    right: ContainerIdentity,
    left_stats: Map<Seq<char>, ContainerStats>,
    right_stats: Map<Seq<char>, ContainerStats>,
)
    requires
        left.labels.wf(),
        right.labels.wf(),
        left@ == right@,
        left_stats.contains_key(left.id@) == right_stats.contains_key(left.id@),
        left_stats.contains_key(left.id@) ==> same_figures(
            left_stats[left.id@],
            right_stats[left.id@],
        ),
    ensures
        container_samples(left, left_stats) == container_samples(right, right_stats),
{
    labels::law_labels_do_not_depend_on_the_walk(left, right);
    assert(left@.id == right@.id);
    assert(left@.started_at == right@.started_at);
    assert(start_time(left) == start_time(right));
}

proof fn lemma_all_samples_alike(
    left: Seq<ContainerIdentity>,
    right: Seq<ContainerIdentity>,
    left_stats: Map<Seq<char>, ContainerStats>,
    right_stats: Map<Seq<char>, ContainerStats>,
)
    requires
        left.len() == right.len(),
        forall|i: int|
            0 <= i < left.len() ==> container_samples(#[trigger] left[i], left_stats)
                == container_samples(right[i], right_stats),
    ensures
        all_samples(left, left_stats) == all_samples(right, right_stats),
    decreases left.len(),
{
    if left.len() > 0 {
        assert(container_samples(left[left.len() - 1], left_stats) == container_samples(
            right[left.len() - 1],
            right_stats,
        ));
        assert forall|i: int| 0 <= i < left.drop_last().len() implies container_samples(
            #[trigger] left.drop_last()[i],
            left_stats,
        ) == container_samples(right.drop_last()[i], right_stats) by {
            assert(left.drop_last()[i] == left[i]);
        }
        lemma_all_samples_alike(left.drop_last(), right.drop_last(), left_stats, right_stats);
    }
}

/// A formatter with one text for each value writes the same values alike.
proof fn lemma_values_alike<F: Fn(SampleValue) -> String>(
    format: F,
    samples: Seq<SampleView>,
    left: Seq<String>,
    right: Seq<String>,
)
    requires
        has_one_text_for_each_value(format),
        are_written_values(format, samples, left),
        are_written_values(format, samples, right),
    ensures
        text::texts(left) == text::texts(right),
{
    assert forall|i: int| 0 <= i < left.len() implies text::texts(left)[i] == text::texts(
        right,
    )[i] by {
        assert(call_ensures(format, (samples[i].value,), left[i]));
        assert(call_ensures(format, (samples[i].value,), right[i]));
    }
    assert(text::texts(left) =~= text::texts(right));
}

/// Where the samples of a container stand among those of all containers.
#[verifier::spinoff_prover]
proof fn lemma_sample_of_a_container(
    containers: Seq<ContainerIdentity>,
    container_stats: Map<Seq<char>, ContainerStats>,
    i: int,
) -> (found: (int, int))
    requires
        0 <= i < all_samples(containers, container_stats).len(),
    ensures
        0 <= found.0 < containers.len(),
        0 <= found.1 < container_samples(containers[found.0], container_stats).len(),
        all_samples(containers, container_stats)[i] == container_samples(
            containers[found.0],
            container_stats,
        )[found.1],
    decreases containers.len(),
{
    let before = all_samples(containers.drop_last(), container_stats);
    if i < before.len() {
        lemma_sample_of_a_container(containers.drop_last(), container_stats, i)
    } else {
        (containers.len() - 1, i - before.len())
    }
}

/// The names of the metrics.
pub open spec fn metric_names() -> Seq<Seq<char>> {
    seq![
        "container_start_time_seconds"@,
        "container_cpu_usage_seconds_total"@,
        "container_cpu_system_seconds_total"@,
        "container_cpu_user_seconds_total"@,
        "container_spec_memory_limit_bytes"@,
        "container_memory_usage_bytes"@,
        "container_memory_rss"@,
        "container_memory_cache"@,
        "container_network_receive_bytes_total"@,
        "container_network_transmit_bytes_total"@,
    ]
}

/// Whether each sample bears one of the names, and the labels.
spec fn all_bear(samples: Seq<SampleView>, labels: Seq<char>) -> bool {
    forall|i: int|
        0 <= i < samples.len() ==> metric_names().contains((#[trigger] samples[i]).name)
            && samples[i].labels == labels
}

proof fn lemma_added_sample(
    samples: Seq<SampleView>,
    k: int,
    labels: Seq<char>,
    value: Option<SampleValue>,
    timestamp_ms: Option<nat>,
)
    requires
        all_bear(samples, labels),
        0 <= k < metric_names().len(),
    ensures
        all_bear(
            samples + optional_sample(metric_names()[k], labels, value, timestamp_ms),
            labels,
        ),
{
    let after = samples + optional_sample(metric_names()[k], labels, value, timestamp_ms);
    assert forall|i: int| 0 <= i < after.len() implies metric_names().contains(
        (#[trigger] after[i]).name,
    ) && after[i].labels == labels by {
        if i < samples.len() {
            assert(after[i] == samples[i]);
        } else {
            assert(after[i].name == metric_names()[k]);
        }
    }
}

/// The samples of a container bear one of the names each, and the labels of the container.
proof fn lemma_samples_of_container(
    container: ContainerIdentity,
    container_stats: Map<Seq<char>, ContainerStats>,
)
    ensures
        all_bear(
            container_samples(container, container_stats),
            labels::container_labels(container),
        ),
{
    let labels = labels::container_labels(container);
    let names = metric_names();
    let none = Seq::<SampleView>::empty();
    lemma_added_sample(none, 0, labels, start_time(container), None);
    let started = optional_sample(names[0], labels, start_time(container), None);
    assert(none + started =~= started);
    if container_stats.contains_key(container.id@) {
        let stats = container_stats[container.id@];
        let at = millis_since_epoch(stats.collected_at);
        let s1 = optional_sample(names[1], labels, nanoseconds(stats.cpu_usage_ns), at);
        lemma_added_sample(none, 1, labels, nanoseconds(stats.cpu_usage_ns), at);
        assert(none + s1 =~= s1);
        lemma_added_sample(s1, 2, labels, nanoseconds(stats.cpu_usage_system_ns), at);
        let s2 = s1 + optional_sample(names[2], labels, nanoseconds(stats.cpu_usage_system_ns), at);
        lemma_added_sample(s2, 3, labels, nanoseconds(stats.cpu_usage_user_ns), at);
        let s3 = s2 + optional_sample(names[3], labels, nanoseconds(stats.cpu_usage_user_ns), at);
        lemma_added_sample(s3, 4, labels, bytes(stats.memory_limit_bytes), at);
        let s4 = s3 + optional_sample(names[4], labels, bytes(stats.memory_limit_bytes), at);
        lemma_added_sample(s4, 5, labels, bytes(stats.memory_usage_bytes), at);
        let s5 = s4 + optional_sample(names[5], labels, bytes(stats.memory_usage_bytes), at);
        lemma_added_sample(s5, 6, labels, bytes(stats.memory_rss_bytes), at);
        let s6 = s5 + optional_sample(names[6], labels, bytes(stats.memory_rss_bytes), at);
        lemma_added_sample(s6, 7, labels, bytes(stats.memory_cache_bytes), at);
        let s7 = s6 + optional_sample(names[7], labels, bytes(stats.memory_cache_bytes), at);
        lemma_added_sample(s7, 8, labels, bytes(stats.network_rx_bytes), at);
        let s8 = s7 + optional_sample(names[8], labels, bytes(stats.network_rx_bytes), at);
        lemma_added_sample(s8, 9, labels, bytes(stats.network_tx_bytes), at);
        let measured = stats_samples(labels, stats);
        assert(all_bear(measured, labels));
        let all = started + measured;
        assert forall|i: int| 0 <= i < all.len() implies metric_names().contains(
            (#[trigger] all[i]).name,
        ) && all[i].labels == labels by {
            if i < started.len() {
                assert(all[i] == started[i]);
            } else {
                assert(all[i] == measured[i - started.len()]);
            }
        }
    } else {
        assert(started + none =~= started);
    }
}

/// Each sample bears one of the names, and the labels of one of the containers.
pub proof fn law_samples_name_a_metric_and_a_container(
    containers: Seq<ContainerIdentity>,
    container_stats: Map<Seq<char>, ContainerStats>,
    i: int,
)
    requires
        0 <= i < all_samples(containers, container_stats).len(),
    ensures
        metric_names().contains(all_samples(containers, container_stats)[i].name),
        exists|k: int|
            0 <= k < containers.len() && all_samples(containers, container_stats)[i].labels
                == labels::container_labels(#[trigger] containers[k]),
{
    let (k, j) = lemma_sample_of_a_container(containers, container_stats, i);
    lemma_samples_of_container(containers[k], container_stats);
}

proof fn lemma_metric_names_are_one_line()
    ensures
        forall|k: int| 0 <= k < metric_names().len() ==> !(#[trigger] metric_names()[k]).contains('\n'),
{
    reveal_strlit("container_start_time_seconds");
    reveal_strlit("container_cpu_usage_seconds_total");
    reveal_strlit("container_cpu_system_seconds_total");
    reveal_strlit("container_cpu_user_seconds_total");
    reveal_strlit("container_spec_memory_limit_bytes");
    reveal_strlit("container_memory_usage_bytes");
    reveal_strlit("container_memory_rss");
    reveal_strlit("container_memory_cache");
    reveal_strlit("container_network_receive_bytes_total");
    reveal_strlit("container_network_transmit_bytes_total");
}

/// The samples of each of the containers are among the samples.
#[verifier::spinoff_prover]
pub proof fn law_no_sample_is_left_out(
    containers: Seq<ContainerIdentity>,
    container_stats: Map<Seq<char>, ContainerStats>,
    k: int,
    sample: SampleView,
)
    requires
        0 <= k < containers.len(),
        container_samples(containers[k], container_stats).contains(sample),
    ensures
        all_samples(containers, container_stats).contains(sample),
    decreases containers.len(),
{
    let front = all_samples(containers.drop_last(), container_stats);
    let back = container_samples(containers.last(), container_stats);
    if k < containers.len() - 1 {
        law_no_sample_is_left_out(containers.drop_last(), container_stats, k, sample);
    }
    lemma_either_contains(front, back, sample);
}

proof fn lemma_either_contains(front: Seq<SampleView>, back: Seq<SampleView>, sample: SampleView)
    requires
        front.contains(sample) || back.contains(sample),
    ensures
        (front + back).contains(sample),
{
    let all = front + back;
    if front.contains(sample) {
        let i = choose|i: int| 0 <= i < front.len() && front[i] == sample;
        assert(all[i] == sample);
    } else {
        let i = choose|i: int| 0 <= i < back.len() && back[i] == sample;
        assert(all[front.len() + i] == sample);
    }
}

/// A sample is one line: it ends with a line break and has no other, if the text of its value has
/// none.
pub proof fn law_sample_is_one_line(
    containers: Seq<ContainerIdentity>,
    container_stats: Map<Seq<char>, ContainerStats>,
    i: int,
    value: Seq<char>,
)
    requires
        0 <= i < all_samples(containers, container_stats).len(),
        !value.contains('\n'),
    ensures
        ({
            let sample = all_samples(containers, container_stats)[i];
            let line = sample_line(sample.name, sample.labels, value, sample.timestamp_ms);
            line.index_of_first('\n') == Some(line.len() - 1)
        }),
{
    let (k, j) = lemma_sample_of_a_container(containers, container_stats, i);
    let sample = all_samples(containers, container_stats)[i];
    labels::law_container_labels_are_one_line(containers[k]);
    lemma_samples_of_container(containers[k], container_stats);
    lemma_metric_names_are_one_line();
    lemma_line(sample.name, sample.labels, value, sample.timestamp_ms);
}

/// A sample is one line if its parts have no line break.
proof fn lemma_line(
    name: Seq<char>,
    labels: Seq<char>,
    value: Seq<char>,
    timestamp_ms: Option<nat>,
)
    requires
        !name.contains('\n'),
        !labels.contains('\n'),
        !value.contains('\n'),
    ensures
        ({
            let line = sample_line(name, labels, value, timestamp_ms);
            line.index_of_first('\n') == Some(line.len() - 1)
        }),
{
    let line = sample_line(name, labels, value, timestamp_ms);
    let stamp = match timestamp_ms {
        Some(timestamp) => {
            text::law_decimal_reads_back(timestamp);
            seq![' '] + text::decimal(timestamp)
        },
        None => Seq::empty(),
    };
    let name_end = name.len() as int;
    let labels_end = name_end + 1 + labels.len();
    let value_end = labels_end + 2 + value.len();
    assert forall|p: int| 0 <= p < line.len() - 1 implies line[p] != '\n' by {
        if p < name_end {
            assert(name.contains(line[p]));
        } else if name_end < p < labels_end {
            assert(line[p] == labels[p - name_end - 1]);
            assert(labels.contains(line[p]));
        } else if labels_end + 2 <= p < value_end {
            assert(line[p] == value[p - labels_end - 2]);
            assert(value.contains(line[p]));
        } else if value_end <= p {
            assert(line[p] == stamp[p - value_end]);
        }
    }
    assert(line[line.len() - 1] == '\n');
    line.index_of_first_ensures('\n');
    assert(line.contains(line[line.len() - 1]));
}

/// The lines of the samples, without their line breaks.
pub open spec fn lines_of_samples(samples: Seq<SampleView>, values: Seq<Seq<char>>) -> Seq<
    Seq<char>,
> {
    Seq::new(
        samples.len(),
        |i: int|
            sample_line(
                samples[i].name,
                samples[i].labels,
                values[i],
                samples[i].timestamp_ms,
            ).drop_last(),
    )
}

/// Below the header stands one line for each sample and nothing else, if no text of a value has a
/// line break.
pub proof fn law_one_line_for_each_sample(
    containers: Seq<ContainerIdentity>,
    container_stats: Map<Seq<char>, ContainerStats>,
    values: Seq<Seq<char>>,
)
    requires
        values.len() == all_samples(containers, container_stats).len(),
        forall|i: int| 0 <= i < values.len() ==> !(#[trigger] values[i]).contains('\n'),
    ensures
        text::split_on(sample_lines(all_samples(containers, container_stats), values), '\n')
            == lines_of_samples(all_samples(containers, container_stats), values).push(
            Seq::empty(),
        ),
{
    let samples = all_samples(containers, container_stats);
    assert forall|i: int| 0 <= i < samples.len() implies #[trigger] is_one_line(
        sample_line(samples[i].name, samples[i].labels, values[i], samples[i].timestamp_ms),
    ) by {
        law_sample_is_one_line(containers, container_stats, i, values[i]);
    }
    lemma_lines_are_split(samples, values);
}

/// Whether the text ends with a line break and has no other.
spec fn is_one_line(line: Seq<char>) -> bool {
    line.index_of_first('\n') == Some(line.len() - 1)
}

proof fn lemma_lines_are_split(samples: Seq<SampleView>, values: Seq<Seq<char>>)
    requires
        values.len() == samples.len(),
        forall|i: int|
            0 <= i < samples.len() ==> #[trigger] is_one_line(
                sample_line(samples[i].name, samples[i].labels, values[i], samples[i].timestamp_ms),
            ),
    ensures
        text::split_on(sample_lines(samples, values), '\n') == lines_of_samples(
            samples,
            values,
        ).push(Seq::empty()),
    decreases samples.len(),
{
    let lines = lines_of_samples(samples, values);
    if samples.len() == 0 {
        assert(text::split_on(sample_lines(samples, values), '\n') =~= lines.push(Seq::empty()));
    } else {
        let end = samples.len() - 1;
        let front_samples = samples.drop_last();
        let front_values = values.drop_last();
        assert forall|i: int| 0 <= i < front_samples.len() implies #[trigger] is_one_line(
            sample_line(
                front_samples[i].name,
                front_samples[i].labels,
                front_values[i],
                front_samples[i].timestamp_ms,
            ),
        ) by {
            assert(is_one_line(
                sample_line(samples[i].name, samples[i].labels, values[i], samples[i].timestamp_ms),
            ));
        }
        lemma_lines_are_split(front_samples, front_values);
        let front = sample_lines(front_samples, front_values);
        let line = sample_line(
            samples[end].name,
            samples[end].labels,
            values[end],
            samples[end].timestamp_ms,
        );
        assert(is_one_line(line));
        line.index_of_first_ensures('\n');
        let shown = line.drop_last();
        assert forall|i: int| 0 <= i < shown.len() implies shown[i] != '\n' by {
            assert(line[i] == shown[i]);
        }
        text::lemma_last_part_grows(front, '\n', shown);
        let whole = sample_lines(samples, values);
        assert(whole =~= front + line);
        assert(line[line.len() - 1] == '\n');
        assert(whole.drop_last() =~= front + shown);
        assert(Seq::<char>::empty() + shown =~= shown);
        let front_lines = lines_of_samples(front_samples, front_values);
        assert(front_lines.push(Seq::<char>::empty()).drop_last() =~= front_lines);
        assert(lines =~= front_lines.push(shown));
        assert(text::split_on(whole, '\n') =~= lines.push(Seq::empty()));
    }
}

/// The view of a sample holds its parts, and a list of samples is seen sample by sample.
pub proof fn law_samples_are_seen_in_full(samples: Seq<Sample>, i: int)
    requires
        0 <= i < samples.len(),
    ensures
        sample_views(samples).len() == samples.len(),
        sample_views(samples)[i].name == samples[i].name@,
        sample_views(samples)[i].labels == samples[i].labels@,
        sample_views(samples)[i].value == samples[i].value,
        samples[i].timestamp_ms is None ==> sample_views(samples)[i].timestamp_ms is None,
        samples[i].timestamp_ms matches Some(timestamp) ==> sample_views(samples)[i].timestamp_ms
            == Some(timestamp as nat),
{
}

/// A time stamp counts the whole milliseconds since the epoch, for every point in time since then.
pub proof fn law_time_stamps_count_milliseconds(time: CollectedAt, seconds: u64, nanoseconds: u32)
    ensures
        millis_since_epoch(CollectedAt::BeforeEpoch) is None,
        time == (CollectedAt::SinceEpoch { seconds, nanoseconds }) ==> {
            let millis = millis_since_epoch(time);
            &&& millis is Some
            &&& millis->0 * 1_000_000 <= seconds * 1_000_000_000 + nanoseconds
            &&& seconds * 1_000_000_000 + nanoseconds < (millis->0 + 1) * 1_000_000
        },
{
}

/// Whether the samples hold one of the name, with the labels, the value and the time stamp, exactly
/// where there is a value; and none of the name with anything else.
pub open spec fn tell(
    samples: Seq<SampleView>,
    name: Seq<char>,
    labels: Seq<char>,
    value: Option<SampleValue>,
    timestamp_ms: Option<nat>,
) -> bool {
    &&& value is Some ==> samples.contains(
        SampleView { name, labels, value: value->0, timestamp_ms },
    )
    &&& forall|i: int|
        0 <= i < samples.len() && (#[trigger] samples[i]).name == name ==> value is Some
            && samples[i] == (SampleView { name, labels, value: value->0, timestamp_ms })
}

/// The samples of the named values, one behind the other.
spec fn gathered(
    labels: Seq<char>,
    items: Seq<(Seq<char>, Option<SampleValue>, Option<nat>)>,
) -> Seq<SampleView>
    decreases items.len(),
{
    if items.len() == 0 {
        Seq::empty()
    } else {
        gathered(labels, items.drop_last()) + optional_sample(
            items.last().0,
            labels,
            items.last().1,
            items.last().2,
        )
    }
}

/// Each value is told once, under its name.
proof fn lemma_gathered_tells(
    labels: Seq<char>,
    items: Seq<(Seq<char>, Option<SampleValue>, Option<nat>)>,
)
    requires
        forall|i: int, j: int|
            0 <= i < j < items.len() ==> (#[trigger] items[i]).0 != (#[trigger] items[j]).0,
    ensures
        forall|k: int|
            0 <= k < items.len() ==> tell(
                gathered(labels, items),
                (#[trigger] items[k]).0,
                labels,
                items[k].1,
                items[k].2,
            ),
        forall|i: int|
            0 <= i < gathered(labels, items).len() ==> exists|k: int|
                0 <= k < items.len() && (#[trigger] items[k]).0 == (#[trigger] gathered(
                    labels,
                    items,
                )[i]).name,
    decreases items.len(),
{
    if items.len() > 0 {
        let end = items.len() - 1;
        let front = items.drop_last();
        assert forall|i: int, j: int| 0 <= i < j < front.len() implies (#[trigger] front[i]).0 != (
        #[trigger] front[j]).0 by {
            assert(items[i].0 != items[j].0);
        }
        lemma_gathered_tells(labels, front);
        let before = gathered(labels, front);
        let added = optional_sample(items[end].0, labels, items[end].1, items[end].2);
        let all = gathered(labels, items);
        assert(all == before + added);
        assert forall|i: int| 0 <= i < all.len() implies exists|k: int|
            0 <= k < items.len() && (#[trigger] items[k]).0 == (#[trigger] all[i]).name by {
            if i < before.len() {
                assert(all[i] == before[i]);
                let k = choose|k: int|
                    0 <= k < front.len() && (#[trigger] front[k]).0 == before[i].name;
                assert(items[k].0 == all[i].name);
            } else {
                assert(items[end].0 == all[i].name);
            }
        }
        assert forall|k: int| 0 <= k < items.len() implies tell(
            all,
            (#[trigger] items[k]).0,
            labels,
            items[k].1,
            items[k].2,
        ) by {
            let item = items[k];
            if item.1 is Some {
                let sample = SampleView {
                    name: item.0,
                    labels,
                    value: item.1->0,
                    timestamp_ms: item.2,
                };
                if k < end {
                    assert(tell(before, front[k].0, labels, front[k].1, front[k].2));
                    assert(before.contains(sample));
                } else {
                    assert(added[0] == sample);
                    assert(added.contains(sample));
                }
                lemma_either_contains(before, added, sample);
            }
            assert forall|i: int|
                0 <= i < all.len() && (#[trigger] all[i]).name == item.0 implies item.1 is Some
                && all[i] == (SampleView {
                name: item.0,
                labels,
                value: item.1->0,
                timestamp_ms: item.2,
            }) by {
                if i < before.len() {
                    assert(all[i] == before[i]);
                    let l = choose|l: int|
                        0 <= l < front.len() && (#[trigger] front[l]).0 == before[i].name;
                    assert(items[l].0 == item.0);
                    if l != k {
                        if l < k {
                            assert(items[l].0 != items[k].0);
                        } else {
                            assert(items[k].0 != items[l].0);
                        }
                    }
                    assert(tell(before, front[k].0, labels, front[k].1, front[k].2));
                } else {
                    assert(all[i] == added[i - before.len()]);
                    assert(items[end].0 == item.0);
                    if k < end {
                        assert(items[k].0 != items[end].0);
                    }
                }
            }
        }
    }
}

/// The names and values of the samples of a container.
spec fn named_values(
    container: ContainerIdentity,
    stats: ContainerStats,
) -> Seq<(Seq<char>, Option<SampleValue>, Option<nat>)> {
    let at = millis_since_epoch(stats.collected_at);
    seq![
        (metric_names()[0], start_time(container), None::<nat>),
        (metric_names()[1], nanoseconds(stats.cpu_usage_ns), at),
        (metric_names()[2], nanoseconds(stats.cpu_usage_system_ns), at),
        (metric_names()[3], nanoseconds(stats.cpu_usage_user_ns), at),
        (metric_names()[4], bytes(stats.memory_limit_bytes), at),
        (metric_names()[5], bytes(stats.memory_usage_bytes), at),
        (metric_names()[6], bytes(stats.memory_rss_bytes), at),
        (metric_names()[7], bytes(stats.memory_cache_bytes), at),
        (metric_names()[8], bytes(stats.network_rx_bytes), at),
        (metric_names()[9], bytes(stats.network_tx_bytes), at),
    ]
}

proof fn lemma_one_more_gathered(
    labels: Seq<char>,
    items: Seq<(Seq<char>, Option<SampleValue>, Option<nat>)>,
    n: int,
)
    requires
        0 <= n < items.len(),
    ensures
        gathered(labels, items.take(n + 1)) == gathered(labels, items.take(n)) + optional_sample(
            items[n].0,
            labels,
            items[n].1,
            items[n].2,
        ),
{
    assert(items.take(n + 1).drop_last() =~= items.take(n));
}

proof fn lemma_ten_gathered(
    labels: Seq<char>,
    items: Seq<(Seq<char>, Option<SampleValue>, Option<nat>)>,
)
    requires
        items.len() == 10,
    ensures
        gathered(labels, items) == optional_sample(items[0].0, labels, items[0].1, items[0].2) + (
        optional_sample(items[1].0, labels, items[1].1, items[1].2) + optional_sample(items[2].0, labels, items[2].1, items[2].2) + optional_sample(items[3].0, labels, items[3].1, items[3].2) + optional_sample(items[4].0, labels, items[4].1, items[4].2) + optional_sample(items[5].0, labels, items[5].1, items[5].2) + optional_sample(items[6].0, labels, items[6].1, items[6].2) + optional_sample(items[7].0, labels, items[7].1, items[7].2) + optional_sample(items[8].0, labels, items[8].1, items[8].2) + optional_sample(items[9].0, labels, items[9].1, items[9].2)),
{
    let started = optional_sample(items[0].0, labels, items[0].1, items[0].2);
    assert(gathered(labels, items.take(0)) =~= Seq::empty());
    lemma_one_more_gathered(labels, items, 0);
    assert(gathered(labels, items.take(1)) =~= started);
    lemma_one_more_gathered(labels, items, 1);
    let s1 = optional_sample(items[1].0, labels, items[1].1, items[1].2);
    assert(gathered(labels, items.take(2)) == started + s1);
    lemma_step(labels, items, 2, started, s1);
    let s2 = s1 + optional_sample(items[2].0, labels, items[2].1, items[2].2);
    lemma_step(labels, items, 3, started, s2);
    let s3 = s2 + optional_sample(items[3].0, labels, items[3].1, items[3].2);
    lemma_step(labels, items, 4, started, s3);
    let s4 = s3 + optional_sample(items[4].0, labels, items[4].1, items[4].2);
    lemma_step(labels, items, 5, started, s4);
    let s5 = s4 + optional_sample(items[5].0, labels, items[5].1, items[5].2);
    lemma_step(labels, items, 6, started, s5);
    let s6 = s5 + optional_sample(items[6].0, labels, items[6].1, items[6].2);
    lemma_step(labels, items, 7, started, s6);
    let s7 = s6 + optional_sample(items[7].0, labels, items[7].1, items[7].2);
    lemma_step(labels, items, 8, started, s7);
    let s8 = s7 + optional_sample(items[8].0, labels, items[8].1, items[8].2);
    lemma_step(labels, items, 9, started, s8);
    let s9 = s8 + optional_sample(items[9].0, labels, items[9].1, items[9].2);
    assert(items.take(10) =~= items);
}

#[verifier::spinoff_prover]
proof fn lemma_container_samples_are_gathered(
    container: ContainerIdentity,
    container_stats: Map<Seq<char>, ContainerStats>,
)
    ensures
        container_stats.contains_key(container.id@) ==> container_samples(
            container,
            container_stats,
        ) == gathered(
            labels::container_labels(container),
            named_values(container, container_stats[container.id@]),
        ),
{
    if container_stats.contains_key(container.id@) {
        let labels = labels::container_labels(container);
        let stats = container_stats[container.id@];
        lemma_ten_gathered(labels, named_values(container, stats));
    }
}

/// Each value is told once, under its name, by the samples of all values.
proof fn lemma_tells(
    samples: Seq<SampleView>,
    labels: Seq<char>,
    items: Seq<(Seq<char>, Option<SampleValue>, Option<nat>)>,
    k: int,
)
    requires
        samples == gathered(labels, items),
        0 <= k < items.len() <= 10,
        forall|i: int| 0 <= i < items.len() ==> (#[trigger] items[i]).0 == metric_names()[i],
    ensures
        tell(samples, metric_names()[k], labels, items[k].1, items[k].2),
{
    lemma_metric_names_differ();
    assert forall|i: int, j: int| 0 <= i < j < items.len() implies (#[trigger] items[i]).0 != (
    #[trigger] items[j]).0 by {
        assert(items[i].0 == metric_names()[i] && items[j].0 == metric_names()[j]);
    }
    lemma_gathered_tells(labels, items);
    assert(items[k].0 == metric_names()[k]);
}

proof fn lemma_measured_names(container: ContainerIdentity, stats: ContainerStats)
    ensures
        forall|i: int|
            0 <= i < 10 ==> (#[trigger] named_values(container, stats)[i]).0 == metric_names()[i],
{
}

proof fn lemma_step(
    labels: Seq<char>,
    items: Seq<(Seq<char>, Option<SampleValue>, Option<nat>)>,
    n: int,
    started: Seq<SampleView>,
    measured: Seq<SampleView>,
)
    requires
        0 <= n < items.len(),
        gathered(labels, items.take(n)) == started + measured,
    ensures
        gathered(labels, items.take(n + 1)) == started + (measured + optional_sample(
            items[n].0,
            labels,
            items[n].1,
            items[n].2,
        )),
{
    lemma_one_more_gathered(labels, items, n);
    let added = optional_sample(items[n].0, labels, items[n].1, items[n].2);
    assert((started + measured) + added =~= started + (measured + added));
}

proof fn lemma_metric_names_differ()
    ensures
        forall|i: int, j: int| 0 <= i < j < 10 ==> metric_names()[i] != metric_names()[j],
{
    reveal_strlit("container_start_time_seconds");
    reveal_strlit("container_cpu_usage_seconds_total");
    reveal_strlit("container_cpu_system_seconds_total");
    reveal_strlit("container_cpu_user_seconds_total");
    reveal_strlit("container_spec_memory_limit_bytes");
    reveal_strlit("container_memory_usage_bytes");
    reveal_strlit("container_memory_rss");
    reveal_strlit("container_memory_cache");
    reveal_strlit("container_network_receive_bytes_total");
    reveal_strlit("container_network_transmit_bytes_total");
    let n = metric_names();
    assert(n[0].len() == 28 && n[1].len() == 33 && n[2].len() == 34 && n[3].len() == 32);
    assert(n[4].len() == 33 && n[5].len() == 28 && n[6].len() == 20 && n[7].len() == 22);
    assert(n[8].len() == 37 && n[9].len() == 38);
    assert(n[0][10] == 's' && n[5][10] == 'm');
    assert(n[1][10] == 'c' && n[4][10] == 's');
}

/// What is measured of a container is sampled as it is: each CPU time under its name, in all of its
/// nanoseconds, each number of bytes under its name, in all of its bytes, and all with the time
/// stamp of the measurement. What is not measured is not sampled.
#[verifier::rlimit(40)]
#[verifier::spinoff_prover]
pub proof fn law_measurement_is_sampled_as_it_is(
    container: ContainerIdentity,
    container_stats: Map<Seq<char>, ContainerStats>,
    stats: ContainerStats,
    seconds: u64,
    subsecond: u32,
)
    requires
        container_stats.contains_key(container.id@),
        container_stats[container.id@] == stats,
        stats.collected_at == (CollectedAt::SinceEpoch { seconds, nanoseconds: subsecond }),
    ensures
        ({
            let samples = container_samples(container, container_stats);
            let labels = labels::container_labels(container);
            let at = Some((seconds * 1_000 + subsecond as int / 1_000_000) as nat);
            &&& match stats.cpu_usage_ns {
                Some(number) => tell(
                    samples,
                    "container_cpu_usage_seconds_total"@,
                    labels,
                    Some(SampleValue::Nanoseconds(number)),
                    at,
                ),
                None => tell(samples, "container_cpu_usage_seconds_total"@, labels, None, at),
            }
            &&& match stats.cpu_usage_system_ns {
                Some(number) => tell(
                    samples,
                    "container_cpu_system_seconds_total"@,
                    labels,
                    Some(SampleValue::Nanoseconds(number)),
                    at,
                ),
                None => tell(samples, "container_cpu_system_seconds_total"@, labels, None, at),
            }
            &&& match stats.cpu_usage_user_ns {
                Some(number) => tell(
                    samples,
                    "container_cpu_user_seconds_total"@,
                    labels,
                    Some(SampleValue::Nanoseconds(number)),
                    at,
                ),
                None => tell(samples, "container_cpu_user_seconds_total"@, labels, None, at),
            }
            &&& match stats.memory_limit_bytes {
                Some(number) => tell(
                    samples,
                    "container_spec_memory_limit_bytes"@,
                    labels,
                    Some(SampleValue::Bytes(number)),
                    at,
                ),
                None => tell(samples, "container_spec_memory_limit_bytes"@, labels, None, at),
            }
            &&& match stats.memory_usage_bytes {
                Some(number) => tell(
                    samples,
                    "container_memory_usage_bytes"@,
                    labels,
                    Some(SampleValue::Bytes(number)),
                    at,
                ),
                None => tell(samples, "container_memory_usage_bytes"@, labels, None, at),
            }
            &&& match stats.memory_rss_bytes {
                Some(number) => tell(
                    samples,
                    "container_memory_rss"@,
                    labels,
                    Some(SampleValue::Bytes(number)),
                    at,
                ),
                None => tell(samples, "container_memory_rss"@, labels, None, at),
            }
            &&& match stats.memory_cache_bytes {
                Some(number) => tell(
                    samples,
                    "container_memory_cache"@,
                    labels,
                    Some(SampleValue::Bytes(number)),
                    at,
                ),
                None => tell(samples, "container_memory_cache"@, labels, None, at),
            }
            &&& match stats.network_rx_bytes {
                Some(number) => tell(
                    samples,
                    "container_network_receive_bytes_total"@,
                    labels,
                    Some(SampleValue::Bytes(number)),
                    at,
                ),
                None => tell(samples, "container_network_receive_bytes_total"@, labels, None, at),
            }
            &&& match stats.network_tx_bytes {
                Some(number) => tell(
                    samples,
                    "container_network_transmit_bytes_total"@,
                    labels,
                    Some(SampleValue::Bytes(number)),
                    at,
                ),
                None => tell(samples, "container_network_transmit_bytes_total"@, labels, None, at),
            }
        }),
{
    let items = named_values(container, stats);
    let samples = container_samples(container, container_stats);
    let labels = labels::container_labels(container);
    lemma_container_samples_are_gathered(container, container_stats);
    lemma_measured_names(container, stats);
    lemma_tells(samples, labels, items, 1);
    lemma_tells(samples, labels, items, 2);
    lemma_tells(samples, labels, items, 3);
    lemma_tells(samples, labels, items, 4);
    lemma_tells(samples, labels, items, 5);
    lemma_tells(samples, labels, items, 6);
    lemma_tells(samples, labels, items, 7);
    lemma_tells(samples, labels, items, 8);
    lemma_tells(samples, labels, items, 9);
}

/// Every number that is measured of one of the containers is among the samples of all of them, as
/// it is and under the name of its metric.
#[verifier::rlimit(40)]
#[verifier::spinoff_prover]
pub proof fn law_every_number_is_exposed(
    containers: Seq<ContainerIdentity>,
    container_stats: Map<Seq<char>, ContainerStats>,
    k: int,
    stats: ContainerStats,
    seconds: u64,
    subsecond: u32,
)
    requires
        0 <= k < containers.len(),
        container_stats.contains_key(containers[k].id@),
        container_stats[containers[k].id@] == stats,
        stats.collected_at == (CollectedAt::SinceEpoch { seconds, nanoseconds: subsecond }),
    ensures
        ({
            let samples = all_samples(containers, container_stats);
            let labels = labels::container_labels(containers[k]);
            let at = Some((seconds * 1_000 + subsecond as int / 1_000_000) as nat);
            &&& stats.cpu_usage_ns matches Some(number) ==> samples.contains(
                SampleView {
                    name: "container_cpu_usage_seconds_total"@,
                    labels,
                    value: SampleValue::Nanoseconds(number),
                    timestamp_ms: at,
                },
            )
            &&& stats.cpu_usage_system_ns matches Some(number) ==> samples.contains(
                SampleView {
                    name: "container_cpu_system_seconds_total"@,
                    labels,
                    value: SampleValue::Nanoseconds(number),
                    timestamp_ms: at,
                },
            )
            &&& stats.cpu_usage_user_ns matches Some(number) ==> samples.contains(
                SampleView {
                    name: "container_cpu_user_seconds_total"@,
                    labels,
                    value: SampleValue::Nanoseconds(number),
                    timestamp_ms: at,
                },
            )
            &&& stats.memory_limit_bytes matches Some(number) ==> samples.contains(
                SampleView {
                    name: "container_spec_memory_limit_bytes"@,
                    labels,
                    value: SampleValue::Bytes(number),
                    timestamp_ms: at,
                },
            )
            &&& stats.memory_usage_bytes matches Some(number) ==> samples.contains(
                SampleView {
                    name: "container_memory_usage_bytes"@,
                    labels,
                    value: SampleValue::Bytes(number),
                    timestamp_ms: at,
                },
            )
            &&& stats.memory_rss_bytes matches Some(number) ==> samples.contains(
                SampleView {
                    name: "container_memory_rss"@,
                    labels,
                    value: SampleValue::Bytes(number),
                    timestamp_ms: at,
                },
            )
            &&& stats.memory_cache_bytes matches Some(number) ==> samples.contains(
                SampleView {
                    name: "container_memory_cache"@,
                    labels,
                    value: SampleValue::Bytes(number),
                    timestamp_ms: at,
                },
            )
            &&& stats.network_rx_bytes matches Some(number) ==> samples.contains(
                SampleView {
                    name: "container_network_receive_bytes_total"@,
                    labels,
                    value: SampleValue::Bytes(number),
                    timestamp_ms: at,
                },
            )
            &&& stats.network_tx_bytes matches Some(number) ==> samples.contains(
                SampleView {
                    name: "container_network_transmit_bytes_total"@,
                    labels,
                    value: SampleValue::Bytes(number),
                    timestamp_ms: at,
                },
            )
        }),
{
    law_measurement_is_sampled_as_it_is(
        containers[k],
        container_stats,
        stats,
        seconds,
        subsecond,
    );
    if let Some(number) = stats.cpu_usage_ns {
        law_no_sample_is_left_out(
            containers,
            container_stats,
            k,
            SampleView {
                name: "container_cpu_usage_seconds_total"@,
                labels: labels::container_labels(containers[k]),
                value: SampleValue::Nanoseconds(number),
                timestamp_ms: Some((seconds * 1_000 + subsecond as int / 1_000_000) as nat),
            },
        );
    }
    if let Some(number) = stats.cpu_usage_system_ns {
        law_no_sample_is_left_out(
            containers,
            container_stats,
            k,
            SampleView {
                name: "container_cpu_system_seconds_total"@,
                labels: labels::container_labels(containers[k]),
                value: SampleValue::Nanoseconds(number),
                timestamp_ms: Some((seconds * 1_000 + subsecond as int / 1_000_000) as nat),
            },
        );
    }
    if let Some(number) = stats.cpu_usage_user_ns {
        law_no_sample_is_left_out(
            containers,
            container_stats,
            k,
            SampleView {
                name: "container_cpu_user_seconds_total"@,
                labels: labels::container_labels(containers[k]),
                value: SampleValue::Nanoseconds(number),
                timestamp_ms: Some((seconds * 1_000 + subsecond as int / 1_000_000) as nat),
            },
        );
    }
    if let Some(number) = stats.memory_limit_bytes {
        law_no_sample_is_left_out(
            containers,
            container_stats,
            k,
            SampleView {
                name: "container_spec_memory_limit_bytes"@,
                labels: labels::container_labels(containers[k]),
                value: SampleValue::Bytes(number),
                timestamp_ms: Some((seconds * 1_000 + subsecond as int / 1_000_000) as nat),
            },
        );
    }
    if let Some(number) = stats.memory_usage_bytes {
        law_no_sample_is_left_out(
            containers,
            container_stats,
            k,
            SampleView {
                name: "container_memory_usage_bytes"@,
                labels: labels::container_labels(containers[k]),
                value: SampleValue::Bytes(number),
                timestamp_ms: Some((seconds * 1_000 + subsecond as int / 1_000_000) as nat),
            },
        );
    }
    if let Some(number) = stats.memory_rss_bytes {
        law_no_sample_is_left_out(
            containers,
            container_stats,
            k,
            SampleView {
                name: "container_memory_rss"@,
                labels: labels::container_labels(containers[k]),
                value: SampleValue::Bytes(number),
                timestamp_ms: Some((seconds * 1_000 + subsecond as int / 1_000_000) as nat),
            },
        );
    }
    if let Some(number) = stats.memory_cache_bytes {
        law_no_sample_is_left_out(
            containers,
            container_stats,
            k,
            SampleView {
                name: "container_memory_cache"@,
                labels: labels::container_labels(containers[k]),
                value: SampleValue::Bytes(number),
                timestamp_ms: Some((seconds * 1_000 + subsecond as int / 1_000_000) as nat),
            },
        );
    }
    if let Some(number) = stats.network_rx_bytes {
        law_no_sample_is_left_out(
            containers,
            container_stats,
            k,
            SampleView {
                name: "container_network_receive_bytes_total"@,
                labels: labels::container_labels(containers[k]),
                value: SampleValue::Bytes(number),
                timestamp_ms: Some((seconds * 1_000 + subsecond as int / 1_000_000) as nat),
            },
        );
    }
    if let Some(number) = stats.network_tx_bytes {
        law_no_sample_is_left_out(
            containers,
            container_stats,
            k,
            SampleView {
                name: "container_network_transmit_bytes_total"@,
                labels: labels::container_labels(containers[k]),
                value: SampleValue::Bytes(number),
                timestamp_ms: Some((seconds * 1_000 + subsecond as int / 1_000_000) as nat),
            },
        );
    }
}

/// When a container was started is sampled, without a time stamp, exactly where it is told and can
/// be read. A container without a measurement has no other sample.
#[verifier::rlimit(40)]
#[verifier::spinoff_prover]
pub proof fn law_start_time_is_sampled(
    container: ContainerIdentity,
    container_stats: Map<Seq<char>, ContainerStats>,
)
    ensures
        ({
            let samples = container_samples(container, container_stats);
            let labels = labels::container_labels(container);
            let name = "container_start_time_seconds"@;
            &&& match container.started_at {
                Some(started_at) => match rfc3339::read_unix_seconds(started_at@) {
                    Some(time) => tell(samples, name, labels, Some(SampleValue::Time(time)), None),
                    None => tell(samples, name, labels, None, None),
                },
                None => tell(samples, name, labels, None, None),
            }
            &&& !container_stats.contains_key(container.id@) ==> forall|i: int|
                0 <= i < samples.len() ==> (#[trigger] samples[i]).name == name
        }),
{
    let labels = labels::container_labels(container);
    let samples = container_samples(container, container_stats);
    if container_stats.contains_key(container.id@) {
        let stats = container_stats[container.id@];
        lemma_container_samples_are_gathered(container, container_stats);
        lemma_measured_names(container, stats);
        lemma_tells(samples, labels, named_values(container, stats), 0);
    } else {
        let items = seq![(metric_names()[0], start_time(container), None::<nat>)];
        lemma_unmeasured_samples_are_gathered(container, container_stats);
        lemma_tells(samples, labels, items, 0);
        lemma_one_gathered(samples, labels, items);
    }
}

proof fn lemma_one_gathered(
    samples: Seq<SampleView>,
    labels: Seq<char>,
    items: Seq<(Seq<char>, Option<SampleValue>, Option<nat>)>,
)
    requires
        samples == gathered(labels, items),
        items.len() == 1,
    ensures
        samples.len() <= 1,
        forall|i: int| 0 <= i < samples.len() ==> (#[trigger] samples[i]).name == items[0].0,
{
    assert(gathered(labels, items.drop_last()) =~= Seq::empty());
}

#[verifier::spinoff_prover]
proof fn lemma_unmeasured_samples_are_gathered(
    container: ContainerIdentity,
    container_stats: Map<Seq<char>, ContainerStats>,
)
    requires
        !container_stats.contains_key(container.id@),
    ensures
        container_samples(container, container_stats) == gathered(
            labels::container_labels(container),
            seq![(metric_names()[0], start_time(container), None::<nat>)],
        ),
{
    let labels = labels::container_labels(container);
    let items = seq![(metric_names()[0], start_time(container), None::<nat>)];
    let started = optional_sample(metric_names()[0], labels, start_time(container), None);
    assert(items.drop_last() =~= Seq::empty());
    assert(gathered(labels, items.drop_last()) =~= Seq::empty());
    assert(gathered(labels, items) =~= started);
    assert(container_samples(container, container_stats) =~= started);
}

proof fn lemma_gathered_in_order(
    labels: Seq<char>,
    items: Seq<(Seq<char>, Option<SampleValue>, Option<nat>)>,
    i: int,
    j: int,
) -> (found: (int, int))
    requires
        0 <= i <= j < gathered(labels, items).len(),
    ensures
        0 <= found.0 <= found.1 < items.len(),
        i < j ==> found.0 < found.1,
        gathered(labels, items)[i].name == items[found.0].0,
        gathered(labels, items)[j].name == items[found.1].0,
    decreases items.len(),
{
    let front = items.drop_last();
    let before = gathered(labels, front);
    if j < before.len() {
        lemma_gathered_in_order(labels, front, i, j)
    } else if i < before.len() {
        let (k, _) = lemma_gathered_in_order(labels, front, i, i);
        (k, items.len() - 1)
    } else {
        (items.len() - 1, items.len() - 1)
    }
}

/// The samples of a container stand in the order of the names of the metrics, so that no metric is
/// sampled twice.
#[verifier::rlimit(40)]
#[verifier::spinoff_prover]
pub proof fn law_samples_of_a_container_are_in_order(
    container: ContainerIdentity,
    container_stats: Map<Seq<char>, ContainerStats>,
    i: int,
    j: int,
) -> (found: (int, int))
    requires
        0 <= i < j < container_samples(container, container_stats).len(),
    ensures
        0 <= found.0 < found.1 < 10,
        container_samples(container, container_stats)[i].name == metric_names()[found.0],
        container_samples(container, container_stats)[j].name == metric_names()[found.1],
        metric_names()[found.0] != metric_names()[found.1],
{
    lemma_metric_names_differ();
    let labels = labels::container_labels(container);
    let samples = container_samples(container, container_stats);
    if !container_stats.contains_key(container.id@) {
        let items = seq![(metric_names()[0], start_time(container), None::<nat>)];
        lemma_unmeasured_samples_are_gathered(container, container_stats);
        lemma_one_gathered(samples, labels, items);
        (0, 1)
    } else {
        let stats = container_stats[container.id@];
        lemma_container_samples_are_gathered(container, container_stats);
        lemma_measured_names(container, stats);
        lemma_gathered_in_order(labels, named_values(container, stats), i, j)
    }
}

/// The samples of containers stand one container behind the other, each container once.
pub proof fn law_containers_are_sampled_one_by_one(
    containers: Seq<ContainerIdentity>,
    container: ContainerIdentity,
    container_stats: Map<Seq<char>, ContainerStats>,
)
    ensures
        all_samples(Seq::empty(), container_stats).len() == 0,
        all_samples(containers.push(container), container_stats) == all_samples(
            containers,
            container_stats,
        ) + container_samples(container, container_stats),
{
    assert(containers.push(container).drop_last() =~= containers);
}

/// There are as many containers in an arrangement as in the map: each container is there once for
/// each time that the map has it.
pub proof fn law_each_container_is_arranged(
    containers: StringMap<ContainerIdentity>,
    arranged: Seq<ContainerIdentity>,
)
    requires
        is_arrangement(containers, arranged),
    ensures
        arranged.len() == containers.entries().len(),
        forall|k: int|
            0 <= k < containers.entries().len() ==> arranged.contains(
                (#[trigger] containers.entries()[k]).1,
            ),
        forall|i: int|
            0 <= i < arranged.len() ==> containers.entries().map_values(
                |entry: (Seq<char>, ContainerIdentity)| entry.1,
            ).contains(#[trigger] arranged[i]),
{
    broadcast use vstd::seq_lib::group_to_multiset_ensures;

    let listed = listed_containers(containers);
    assert(arranged.to_multiset().len() == arranged.len());
    assert(listed.to_multiset().len() == listed.len());
    lemma_arrangement_has_the_same(containers, arranged);
    assert forall|k: int| 0 <= k < containers.entries().len() implies arranged.contains(
        (#[trigger] containers.entries()[k]).1,
    ) by {
        assert(listed[k] == containers.entries()[k].1);
    }
}

/// Containers are arranged by their names in the order of texts, and those of one name by their
/// ids.
pub proof fn law_containers_are_arranged_by_name_and_id(
    containers: StringMap<ContainerIdentity>,
    arranged: Seq<ContainerIdentity>,
    i: int,
    j: int,
)
    requires
        is_arrangement(containers, arranged),
        0 <= i < j < arranged.len(),
    ensures
        order::text_le(arranged[i].name@, arranged[j].name@),
        arranged[i].name@ == arranged[j].name@ ==> order::text_le(
            arranged[i].id@,
            arranged[j].id@,
        ),
{
    assert(container_le(arranged[i], arranged[j]));
    order::lemma_text_total(arranged[i].name@, arranged[i].name@);
}

/// Nothing can be rendered exactly where a container of the map has a measurement from before the
/// epoch under its id.
pub proof fn law_early_measurements_of_containers_count(
    containers: StringMap<ContainerIdentity>,
    container_stats: Map<Seq<char>, ContainerStats>,
)
    requires
        containers.wf(),
    ensures
        any_measured_before_epoch(containers, container_stats) <==> exists|key: Seq<char>| #[trigger]
            containers@.contains_key(key) && container_stats.contains_key(containers@[key].id@)
                && container_stats[containers@[key].id@].collected_at is BeforeEpoch,
{
    string_map::lemma_entries_map(containers.entries());
    let listed = listed_containers(containers);
    if any_measured_before_epoch(containers, container_stats) {
        let i = choose|i: int|
            0 <= i < listed.len() && measured_before_epoch(#[trigger] listed[i], container_stats);
        assert(containers@.contains_key(containers.entries()[i].0));
        assert(containers@[containers.entries()[i].0] == listed[i]);
    }
    if exists|key: Seq<char>| #[trigger]
        containers@.contains_key(key) && container_stats.contains_key(containers@[key].id@)
            && container_stats[containers@[key].id@].collected_at is BeforeEpoch {
        let key = choose|key: Seq<char>| #[trigger]
            containers@.contains_key(key) && container_stats.contains_key(containers@[key].id@)
                && container_stats[containers@[key].id@].collected_at is BeforeEpoch;
        let i = choose|i: int|
            0 <= i < containers.entries().len() && (#[trigger] containers.entries()[i]).0 == key;
        assert(listed[i] == containers@[key]);
        assert(measured_before_epoch(listed[i], container_stats));
    }
}

/// A sample is written as its name, its labels in braces, its value and, where it has one, its time
/// stamp in decimal, with a space in front of each of the latter two and a line break at the end.
pub proof fn law_sample_is_written_part_by_part(
    name: Seq<char>,
    labels: Seq<char>,
    value: Seq<char>,
    timestamp_ms: nat,
) -> (stamp: Seq<char>)
    ensures
        text::all_digits(stamp) && stamp.len() > 0 && text::digits_value(stamp) == timestamp_ms,
        sample_line(name, labels, value, Some(timestamp_ms)) == name + seq!['{'] + labels + seq![
            '}',
            ' ',
        ] + value + seq![' '] + stamp + seq!['\n'],
        sample_line(name, labels, value, None) == name + seq!['{'] + labels + seq!['}', ' '] + value
            + seq!['\n'],
{
    text::law_decimal_reads_back(timestamp_ms);
    let stamp = text::decimal(timestamp_ms);
    assert(sample_line(name, labels, value, Some(timestamp_ms)) =~= name + seq!['{'] + labels
        + seq!['}', ' '] + value + seq![' '] + stamp + seq!['\n']);
    assert(sample_line(name, labels, value, None) =~= name + seq!['{'] + labels + seq!['}', ' ']
        + value + seq!['\n']);
    stamp
}

/// The lines of samples stand one behind the other, each with the text of its own value.
pub proof fn law_samples_are_written_one_by_one(
    samples: Seq<SampleView>,
    values: Seq<Seq<char>>,
    sample: SampleView,
    value: Seq<char>,
)
    ensures
        sample_lines(Seq::empty(), Seq::empty()).len() == 0,
        sample_lines(samples.push(sample), values.push(value)) == sample_lines(samples, values)
            + sample_line(sample.name, sample.labels, value, sample.timestamp_ms),
{
    assert(samples.push(sample).drop_last() =~= samples);
    assert(values.push(value).drop_last() =~= values);
}

/// What is exposed is the header and then the line of every sample, complete, with a text that the
/// formatter gives for the value of the sample.
pub proof fn law_exposition_is_header_and_lines<F: Fn(SampleValue) -> String>(
    containers: StringMap<ContainerIdentity>,
    container_stats: Map<Seq<char>, ContainerStats>,
    format: F,
    metrics: Seq<char>,
) -> (found: (Seq<ContainerIdentity>, Seq<String>))
    requires
        exposes(containers, container_stats, format, metrics),
    ensures
        is_arrangement(containers, found.0),
        found.1.len() == all_samples(found.0, container_stats).len(),
        forall|i: int|
            0 <= i < found.1.len() ==> call_ensures(
                format,
                (all_samples(found.0, container_stats)[i].value,),
                #[trigger] found.1[i],
            ),
        metrics.len() >= HEADER@.len(),
        metrics.take(HEADER@.len() as int) == HEADER@,
        metrics.skip(HEADER@.len() as int) == sample_lines(
            all_samples(found.0, container_stats),
            Seq::new(found.1.len(), |i: int| found.1[i]@),
        ),
{
    let (arranged, values) = choose|arranged: Seq<ContainerIdentity>, values: Seq<String>| #[trigger]
        is_exposition(containers, container_stats, format, arranged, values, metrics);
    assert(metrics.take(HEADER@.len() as int) =~= HEADER@);
    assert(text::texts(values) =~= Seq::new(values.len(), |i: int| values[i]@));
    assert(metrics.skip(HEADER@.len() as int) =~= sample_lines(
        all_samples(arranged, container_stats),
        text::texts(values),
    ));
    (arranged, values)
}

/// What the header says of a metric: in words what it means, and of which kind it is.
pub open spec fn described(name: Seq<char>, meaning: Seq<char>, kind: Seq<char>) -> Seq<char> {
    "# HELP "@ + name + seq![' '] + meaning + seq!['\n'] + "# TYPE "@ + name + seq![' '] + kind
        + seq!['\n']
}

/// The header describes every metric, one behind the other, and nothing else.
#[verifier::rlimit(60)]
#[verifier::spinoff_prover]
pub proof fn law_header_describes_every_metric()
    ensures
        HEADER@ == described(
            "container_cpu_usage_seconds_total"@,
            "Cumulative cpu time consumed in seconds."@,
            "counter"@,
        ) + described(
            "container_cpu_system_seconds_total"@,
            "Cumulative system cpu time consumed in seconds."@,
            "counter"@,
        ) + described(
            "container_cpu_user_seconds_total"@,
            "Cumulative user cpu time consumed seconds."@,
            "counter"@,
        ) + described(
            "container_spec_memory_limit_bytes"@,
            "Memory limit for the container in bytes."@,
            "gauge"@,
        ) + described(
            "container_memory_usage_bytes"@,
            "Current memory usage in bytes."@,
            "gauge"@,
        ) + described(
            "container_memory_rss"@,
            "Size of RSS in bytes."@,
            "gauge"@,
        ) + described(
            "container_memory_cache"@,
            "Number of bytes of page cache memory."@,
            "gauge"@,
        ) + described(
            "container_network_receive_bytes_total"@,
            "Cumulative count of bytes received."@,
            "counter"@,
        ) + described(
            "container_network_transmit_bytes_total"@,
            "Cumulative count of bytes transmitted."@,
            "counter"@,
        ) + described(
            "container_start_time_seconds"@,
            "Start time of the container since Unix epoch in seconds."@,
            "gauge"@,
        ),
{
    reveal_strlit(
        "# HELP container_cpu_usage_seconds_total Cumulative cpu time consumed in seconds.\n\
# TYPE container_cpu_usage_seconds_total counter\n\
# HELP container_cpu_system_seconds_total Cumulative system cpu time consumed in seconds.\n\
# TYPE container_cpu_system_seconds_total counter\n\
# HELP container_cpu_user_seconds_total Cumulative user cpu time consumed seconds.\n\
# TYPE container_cpu_user_seconds_total counter\n\
# HELP container_spec_memory_limit_bytes Memory limit for the container in bytes.\n\
# TYPE container_spec_memory_limit_bytes gauge\n\
# HELP container_memory_usage_bytes Current memory usage in bytes.\n\
# TYPE container_memory_usage_bytes gauge\n\
# HELP container_memory_rss Size of RSS in bytes.\n\
# TYPE container_memory_rss gauge\n\
# HELP container_memory_cache Number of bytes of page cache memory.\n\
# TYPE container_memory_cache gauge\n\
# HELP container_network_receive_bytes_total Cumulative count of bytes received.\n\
# TYPE container_network_receive_bytes_total counter\n\
# HELP container_network_transmit_bytes_total Cumulative count of bytes transmitted.\n\
# TYPE container_network_transmit_bytes_total counter\n\
# HELP container_start_time_seconds Start time of the container since Unix epoch in seconds.\n\
# TYPE container_start_time_seconds gauge\n",
    );
    reveal_strlit("# HELP ");
    reveal_strlit("# TYPE ");
    reveal_strlit("Cumulative count of bytes received.");
    reveal_strlit("Cumulative count of bytes transmitted.");
    reveal_strlit("Cumulative cpu time consumed in seconds.");
    reveal_strlit("Cumulative system cpu time consumed in seconds.");
    reveal_strlit("Cumulative user cpu time consumed seconds.");
    reveal_strlit("Current memory usage in bytes.");
    reveal_strlit("Memory limit for the container in bytes.");
    reveal_strlit("Number of bytes of page cache memory.");
    reveal_strlit("Size of RSS in bytes.");
    reveal_strlit("Start time of the container since Unix epoch in seconds.");
    reveal_strlit("container_cpu_system_seconds_total");
    reveal_strlit("container_cpu_usage_seconds_total");
    reveal_strlit("container_cpu_user_seconds_total");
    reveal_strlit("container_memory_cache");
    reveal_strlit("container_memory_rss");
    reveal_strlit("container_memory_usage_bytes");
    reveal_strlit("container_network_receive_bytes_total");
    reveal_strlit("container_network_transmit_bytes_total");
    reveal_strlit("container_spec_memory_limit_bytes");
    reveal_strlit("container_start_time_seconds");
    reveal_strlit("counter");
    reveal_strlit("gauge");
    assert(HEADER@ =~= described(
            "container_cpu_usage_seconds_total"@,
            "Cumulative cpu time consumed in seconds."@,
            "counter"@,
        ) + described(
            "container_cpu_system_seconds_total"@,
            "Cumulative system cpu time consumed in seconds."@,
            "counter"@,
        ) + described(
            "container_cpu_user_seconds_total"@,
            "Cumulative user cpu time consumed seconds."@,
            "counter"@,
        ) + described(
            "container_spec_memory_limit_bytes"@,
            "Memory limit for the container in bytes."@,
            "gauge"@,
        ) + described(
            "container_memory_usage_bytes"@,
            "Current memory usage in bytes."@,
            "gauge"@,
        ) + described(
            "container_memory_rss"@,
            "Size of RSS in bytes."@,
            "gauge"@,
        ) + described(
            "container_memory_cache"@,
            "Number of bytes of page cache memory."@,
            "gauge"@,
        ) + described(
            "container_network_receive_bytes_total"@,
            "Cumulative count of bytes received."@,
            "counter"@,
        ) + described(
            "container_network_transmit_bytes_total"@,
            "Cumulative count of bytes transmitted."@,
            "counter"@,
        ) + described(
            "container_start_time_seconds"@,
            "Start time of the container since Unix epoch in seconds."@,
            "gauge"@,
        ));
}

} // verus!
