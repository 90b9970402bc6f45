use std::collections::HashMap;

use docker_stats::docker_events::requests::{inspect_options, list_options, stats_options};
use docker_stats::docker_events::DockerEventFilter;
use docker_stats::tracking::tracked_events;

fn lists(pairs: &[(&str, &[&str])]) -> Option<HashMap<String, Vec<String>>> {
    let mut map = HashMap::new();
    for (key, values) in pairs {
        map.insert(key.to_string(), values.iter().map(|value| value.to_string()).collect());
    }
    Some(map)
}

#[test]
fn no_filter_asks_for_everything() {
    let options = DockerEventFilter::default().into_options();
    assert_eq!(options.since, None);
    assert_eq!(options.until, None);
    assert_eq!(options.filters, None);
}

#[test]
fn container_events_are_filtered_by_type() {
    let options = DockerEventFilter::containers().into_options();
    assert_eq!(options.filters, lists(&[("type", &["container"])]));
}

#[test]
fn the_last_span_of_time_counts() {
    let options = DockerEventFilter::default()
        .with_since("1")
        .with_since("2".to_string())
        .with_until("3")
        .into_options();
    assert_eq!(options.since, Some("2".to_string()));
    assert_eq!(options.until, Some("3".to_string()));
    assert_eq!(options.filters, None);
}

#[test]
fn filters_add_up() {
    let one_by_one = DockerEventFilter::containers()
        .with_filter("event", "start")
        .with_filter("event", String::from("die"))
        .into_options();
    let at_once = DockerEventFilter::containers()
        .with_filters("event", vec!["start", "die"])
        .into_options();
    let expected = lists(&[("type", &["container"]), ("event", &["start", "die"])]);
    assert_eq!(one_by_one.filters, expected);
    assert_eq!(at_once.filters, expected);
}

#[test]
fn a_key_without_values_is_kept() {
    let none: Vec<String> = vec![];
    let options = DockerEventFilter::default().with_filters("event", none).into_options();
    assert_eq!(options.filters, lists(&[("event", &[])]));
}

#[test]
fn tracked_events_are_starts_and_ends_of_containers() {
    let options = tracked_events("1715000000".to_string()).into_options();
    assert_eq!(options.since, Some("1715000000".to_string()));
    assert_eq!(options.until, None);
    assert_eq!(
        options.filters,
        lists(&[("type", &["container"]), ("event", &["start", "die"])])
    );
}

#[test]
fn lists_are_of_running_or_of_all_containers() {
    let running = list_options(true);
    assert!(!running.all);
    assert_eq!(running.limit, None);
    assert!(!running.size);
    assert_eq!(running.filters, None);
    assert!(list_options(false).all);
}

#[test]
fn measurements_are_streamed_or_taken_once() {
    assert!(stats_options(true).stream);
    assert!(!stats_options(true).one_shot);
    assert!(!stats_options(false).stream);
    assert!(!stats_options(false).one_shot);
}

#[test]
fn inspections_do_not_ask_for_sizes() {
    assert!(!inspect_options().size);
}
