use docker_stats::docker_events::stats::{CollectedAt, ContainerStats};
use docker_stats::docker_events::ContainerIdentity;
use docker_stats::labels::{
    escape_prometheus_label_value, prometheus_container_labels, prometheus_label,
    prometheus_label_name,
};
use docker_stats::metrics::{
    prometheus_samples, push_prometheus_sample, push_prometheus_sample_without_timestamp,
    render_prometheus_metrics, unix_timestamp_millis, RenderError, SampleValue, HEADER,
};
use docker_stats::string_map::StringMap;

fn container(id: &str, name: &str) -> ContainerIdentity {
    ContainerIdentity {
        id: id.to_string(),
        name: name.to_string(),
        created_at: None,
        started_at: None,
        image: Some("redis:7".to_string()),
        image_id: None,
        working_dir: None,
        labels: StringMap::new(),
    }
}

fn stats(id: &str, collected_at: CollectedAt) -> ContainerStats {
    ContainerStats {
        id: id.to_string(),
        name: None,
        collected_at,
        cpu_percent: None,
        cpu_usage_ns: None,
        cpu_usage_system_ns: None,
        cpu_usage_user_ns: None,
        memory_limit_bytes: None,
        memory_usage_bytes: None,
        memory_rss_bytes: None,
        memory_cache_bytes: None,
        network_rx_bytes: None,
        network_tx_bytes: None,
    }
}

fn by_id(list: Vec<ContainerIdentity>) -> StringMap<ContainerIdentity> {
    let mut map = StringMap::new();
    for container in list {
        map.insert(container.id.clone(), container);
    }
    map
}

fn write(value: SampleValue) -> String {
    let number = match value {
        SampleValue::Nanoseconds(nanoseconds) => nanoseconds as f64 / 1_000_000_000.0,
        SampleValue::Bytes(bytes) => bytes as f64,
        SampleValue::Time(time) => {
            let fraction = match time.second.fraction {
                Some(fraction) => {
                    fraction.numerator as f64 / 10_f64.powi(fraction.digits as i32)
                }
                None => 0.0,
            };
            time.seconds as f64 + (time.second.whole as f64 + fraction)
                - time.offset_seconds as f64
        }
    };
    format!("{number:.9}")
}

#[test]
fn label_values_are_escaped() {
    assert_eq!(escape_prometheus_label_value("plain é"), "plain é");
    assert_eq!(escape_prometheus_label_value("a\\b\nc\"d"), "a\\\\b\\nc\\\"d");
    assert_eq!(escape_prometheus_label_value("\\n"), "\\\\n");
    assert_eq!(escape_prometheus_label_value(""), "");
    for value in ["a\\\"\n", "\\\\", "\"\"", "x\ry"] {
        let replaced = value.replace('\\', r"\\").replace('\n', r"\n").replace('"', r#"\""#);
        assert_eq!(escape_prometheus_label_value(value), replaced);
    }
}

#[test]
fn label_names_hold_letters_digits_and_underscores() {
    assert_eq!(prometheus_label_name("com.docker.compose/project-1"), "com_docker_compose_project_1");
    assert_eq!(prometheus_label_name("aZ_09"), "aZ_09");
    assert_eq!(prometheus_label_name("é ٣"), "___");
    assert_eq!(prometheus_label("name", "a\"b"), "name=\"a\\\"b\"");
}

#[test]
fn labels_of_a_container_are_sorted() {
    let mut labelled = container("1", "cache");
    labelled.labels.insert("z.last".to_string(), "2".to_string());
    labelled.labels.insert("a".to_string(), "1".to_string());
    let expected = concat_labels(&[
        "container_label_a=\"1\"",
        "container_label_z_last=\"2\"",
        "image=\"redis:7\"",
        "name=\"cache\"",
    ]);
    assert_eq!(prometheus_container_labels(&labelled), expected);
    let mut other = container("1", "cache");
    other.labels.insert("a".to_string(), "1".to_string());
    other.labels.insert("z.last".to_string(), "2".to_string());
    assert_eq!(prometheus_container_labels(&other), expected);
}

fn concat_labels(labels: &[&str]) -> String {
    labels.join(",")
}

#[test]
fn a_missing_image_is_an_empty_label() {
    let unknown = ContainerIdentity { image: None, ..container("1", "cache") };
    assert_eq!(prometheus_container_labels(&unknown), "image=\"\",name=\"cache\"");
}

#[test]
fn samples_are_lines() {
    let mut metrics = "before\n".to_string();
    push_prometheus_sample(&mut metrics, "m", "a=\"1\"", "0.500000000", 1_715_000_000_123);
    push_prometheus_sample_without_timestamp(&mut metrics, "n", "", "2");
    assert_eq!(metrics, "before\nm{a=\"1\"} 0.500000000 1715000000123\nn{} 2\n");
}

#[test]
fn timestamps_are_whole_milliseconds() {
    let at = |seconds: u64, nanoseconds: u32| {
        unix_timestamp_millis(CollectedAt::SinceEpoch { seconds, nanoseconds })
    };
    assert_eq!(at(0, 0), Ok(0));
    assert_eq!(at(1, 999_999), Ok(1_000));
    assert_eq!(at(1, 1_000_000), Ok(1_001));
    assert_eq!(at(1_715_000_000, 123_999_999), Ok(1_715_000_000_123));
    assert_eq!(at(u64::MAX, 999_999_999), Ok(u64::MAX as u128 * 1_000 + 999));
    let error = unix_timestamp_millis(CollectedAt::BeforeEpoch).unwrap_err();
    assert_eq!(error, RenderError::CollectedBeforeEpoch);
    assert_eq!(error.message(), "stats collection timestamp is before the Unix epoch");
}

#[test]
fn every_metric_is_declared() {
    let kinds = [
        ("container_cpu_usage_seconds_total", "counter"),
        ("container_cpu_system_seconds_total", "counter"),
        ("container_cpu_user_seconds_total", "counter"),
        ("container_spec_memory_limit_bytes", "gauge"),
        ("container_memory_usage_bytes", "gauge"),
        ("container_memory_rss", "gauge"),
        ("container_memory_cache", "gauge"),
        ("container_network_receive_bytes_total", "counter"),
        ("container_network_transmit_bytes_total", "counter"),
        ("container_start_time_seconds", "gauge"),
    ];
    let lines: Vec<&str> = HEADER.lines().collect();
    assert_eq!(lines.len(), 2 * kinds.len());
    for (index, (name, kind)) in kinds.iter().enumerate() {
        assert!(lines[2 * index].starts_with(&format!("# HELP {name} ")));
        assert_eq!(lines[2 * index + 1], format!("# TYPE {name} {kind}"));
    }
    assert!(HEADER.ends_with('\n'));
    assert_eq!(lines[4], "# HELP container_cpu_user_seconds_total Cumulative user cpu time consumed seconds.");
}

#[test]
fn nothing_tracked_renders_the_header() {
    assert_eq!(
        render_prometheus_metrics(&StringMap::new(), &StringMap::new(), write),
        Ok(HEADER.to_string())
    );
}

#[test]
fn a_container_is_rendered() {
    let started = ContainerIdentity {
        started_at: Some("2024-05-06T07:08:09.5+01:00".to_string()),
        ..container("42", "cache")
    };
    let measured = ContainerStats {
        cpu_usage_ns: Some(1_500_000_000),
        cpu_usage_system_ns: Some(1),
        cpu_usage_user_ns: Some(250_000_000),
        memory_limit_bytes: Some(4_096),
        memory_usage_bytes: Some(100),
        memory_rss_bytes: Some(60),
        memory_cache_bytes: Some(40),
        network_rx_bytes: Some(7),
        network_tx_bytes: Some(0),
        ..stats("42", CollectedAt::SinceEpoch { seconds: 12, nanoseconds: 345_678_901 })
    };
    let mut container_stats = StringMap::new();
    container_stats.insert("42".to_string(), measured);
    let labels = "{image=\"redis:7\",name=\"cache\"}";
    let expected = [
        format!("container_start_time_seconds{labels} 1714975689.500000000\n"),
        format!("container_cpu_usage_seconds_total{labels} 1.500000000 12345\n"),
        format!("container_cpu_system_seconds_total{labels} 0.000000001 12345\n"),
        format!("container_cpu_user_seconds_total{labels} 0.250000000 12345\n"),
        format!("container_spec_memory_limit_bytes{labels} 4096.000000000 12345\n"),
        format!("container_memory_usage_bytes{labels} 100.000000000 12345\n"),
        format!("container_memory_rss{labels} 60.000000000 12345\n"),
        format!("container_memory_cache{labels} 40.000000000 12345\n"),
        format!("container_network_receive_bytes_total{labels} 7.000000000 12345\n"),
        format!("container_network_transmit_bytes_total{labels} 0.000000000 12345\n"),
    ];
    assert_eq!(
        render_prometheus_metrics(&by_id(vec![started]), &container_stats, write),
        Ok(format!("{HEADER}{}", expected.concat()))
    );
}

#[test]
fn containers_are_rendered_by_name_and_id() {
    let at = |id: &str, name: &str| ContainerIdentity {
        started_at: Some("1970-01-01T00:00:00Z".to_string()),
        ..container(id, name)
    };
    let list = || vec![at("3", "b"), at("2", "a"), at("1", "c"), at("1a", "a"), at("20", "a")];
    let mut reversed = list();
    reversed.reverse();
    let rendered = render_prometheus_metrics(&by_id(list()), &StringMap::new(), write).unwrap();
    let again = render_prometheus_metrics(&by_id(reversed), &StringMap::new(), write).unwrap();
    assert_eq!(rendered, again);
    let names: Vec<&str> = rendered
        .lines()
        .filter(|line| !line.starts_with('#'))
        .map(|line| line.split("name=\"").nth(1).unwrap().split('"').next().unwrap())
        .collect();
    assert_eq!(names, vec!["a", "a", "a", "b", "c"]);
}

#[test]
fn samples_of_one_name_follow_the_ids() {
    let mut first = container("2", "a");
    first.image = Some("second".to_string());
    first.started_at = Some("1970-01-01T00:00:02Z".to_string());
    let mut second = container("10", "a");
    second.image = Some("first".to_string());
    second.started_at = Some("1970-01-01T00:00:01Z".to_string());
    let samples = prometheus_samples(&by_id(vec![first, second]), &StringMap::new()).unwrap();
    let labels: Vec<&str> = samples.iter().map(|sample| sample.labels.as_str()).collect();
    assert_eq!(
        labels,
        vec!["image=\"first\",name=\"a\"", "image=\"second\",name=\"a\""]
    );
}

#[test]
fn what_is_unknown_is_not_rendered() {
    let unreadable = ContainerIdentity {
        started_at: Some("yesterday".to_string()),
        ..container("1", "cache")
    };
    let mut container_stats = StringMap::new();
    container_stats.insert(
        "1".to_string(),
        ContainerStats {
            memory_rss_bytes: Some(5),
            ..stats("1", CollectedAt::SinceEpoch { seconds: 1, nanoseconds: 0 })
        },
    );
    container_stats.insert(
        "2".to_string(),
        ContainerStats {
            memory_rss_bytes: Some(6),
            ..stats("2", CollectedAt::SinceEpoch { seconds: 1, nanoseconds: 0 })
        },
    );
    let samples = prometheus_samples(&by_id(vec![unreadable]), &container_stats).unwrap();
    assert_eq!(samples.len(), 1);
    assert_eq!(samples[0].name, "container_memory_rss");
    assert_eq!(samples[0].value, SampleValue::Bytes(5));
    assert_eq!(samples[0].timestamp_ms, Some(1_000));
}

#[test]
fn a_measurement_before_the_epoch_is_an_error() {
    let mut container_stats = StringMap::new();
    container_stats.insert("1".to_string(), stats("1", CollectedAt::BeforeEpoch));
    let rendered =
        render_prometheus_metrics(&by_id(vec![container("1", "a")]), &container_stats, write);
    assert_eq!(rendered, Err(RenderError::CollectedBeforeEpoch));
    let others =
        render_prometheus_metrics(&by_id(vec![container("2", "a")]), &container_stats, write);
    assert_eq!(others, Ok(HEADER.to_string()));
}

#[test]
fn a_sample_stays_on_its_line() {
    let odd = ContainerIdentity {
        started_at: Some("1970-01-01T00:00:00Z".to_string()),
        ..container("1", "two\nlines\"\\")
    };
    let rendered = render_prometheus_metrics(&by_id(vec![odd]), &StringMap::new(), write).unwrap();
    assert_eq!(
        &rendered[HEADER.len()..],
        "container_start_time_seconds{image=\"redis:7\",name=\"two\\nlines\\\"\\\\\"} 0.000000000\n"
    );
}

#[test]
fn the_walk_and_unknown_measurements_do_not_change_the_text() {
    let labelled = |id: &str, labels: &[(&str, &str)]| {
        let mut labelled = container(id, "same");
        for (key, value) in labels {
            labelled.labels.insert(key.to_string(), value.to_string());
        }
        labelled
    };
    let measured = |id: &str, name: &str, bytes: u64| ContainerStats {
        name: Some(name.to_string()),
        memory_rss_bytes: Some(bytes),
        ..stats(id, CollectedAt::SinceEpoch { seconds: 1, nanoseconds: 0 })
    };
    let left = by_id(vec![
        labelled("1", &[("a", "1"), ("b", "2")]),
        labelled("2", &[("c", "3")]),
    ]);
    let right = by_id(vec![
        labelled("2", &[("c", "3")]),
        labelled("1", &[("b", "2"), ("a", "1")]),
    ]);
    let mut left_stats = StringMap::new();
    left_stats.insert("1".to_string(), measured("1", "x", 10));
    left_stats.insert("2".to_string(), measured("2", "x", 20));
    let mut right_stats = StringMap::new();
    right_stats.insert("9".to_string(), stats("9", CollectedAt::BeforeEpoch));
    right_stats.insert("2".to_string(), measured("2", "y", 20));
    right_stats.insert("1".to_string(), measured("1", "y", 10));
    let rendered = render_prometheus_metrics(&left, &left_stats, write).unwrap();
    assert_eq!(render_prometheus_metrics(&right, &right_stats, write), Ok(rendered.clone()));
    assert_eq!(
        &rendered[HEADER.len()..],
        "container_memory_rss{container_label_a=\"1\",container_label_b=\"2\",image=\"redis:7\",name=\"same\"} 10.000000000 1000\n\
         container_memory_rss{container_label_c=\"3\",image=\"redis:7\",name=\"same\"} 20.000000000 1000\n"
    );
}
