use docker_stats::docker_events::identity::{
    ContainerInspectResponse, EventActor, EventMessage,
};
use docker_stats::docker_events::stats::{CollectedAt, ContainerStats};
use docker_stats::docker_events::ContainerIdentity;
use docker_stats::string_map::StringMap;
use docker_stats::tracking::{
    after_inspection, insert_container, needs_stream, note_stream_event, react, remove_container,
    Reaction, StreamEvent, STATS_RECONNECT_SECONDS,
};

fn event(action: Option<&str>, id: Option<&str>) -> EventMessage {
    EventMessage {
        action: action.map(|action| action.to_string()),
        actor: Some(EventActor { id: id.map(|id| id.to_string()), attributes: None }),
    }
}

fn container(id: &str) -> ContainerIdentity {
    ContainerIdentity::from_event(&event(Some("start"), Some(id))).unwrap()
}

fn stats(id: &str) -> ContainerStats {
    ContainerStats {
        id: id.to_string(),
        name: None,
        collected_at: CollectedAt::SinceEpoch { seconds: 1, nanoseconds: 0 },
        cpu_percent: None,
        cpu_usage_ns: Some(1),
        cpu_usage_system_ns: None,
        cpu_usage_user_ns: None,
        memory_limit_bytes: None,
        memory_usage_bytes: None,
        memory_rss_bytes: None,
        memory_cache_bytes: None,
        network_rx_bytes: None,
        network_tx_bytes: None,
    }
}

#[test]
fn starts_are_tracked_and_ends_forgotten() {
    match react(&event(Some("start"), Some("1"))) {
        Reaction::Track(identity) => assert_eq!(identity, container("1")),
        other => panic!("{other:?}"),
    }
    match react(&event(Some("die"), Some("1"))) {
        Reaction::Forget(id) => assert_eq!(id, "1"),
        other => panic!("{other:?}"),
    }
}

#[test]
fn other_and_missing_actions_are_tracked() {
    for action in [None, Some("unknown"), Some("Die"), Some("")] {
        match react(&event(action, Some("1"))) {
            Reaction::Track(identity) => assert_eq!(identity.id, "1"),
            other => panic!("{other:?}"),
        }
    }
}

#[test]
fn events_without_a_container_are_ignored() {
    assert!(matches!(react(&event(Some("start"), None)), Reaction::Ignore));
    assert!(matches!(react(&event(Some("die"), None)), Reaction::Ignore));
    assert!(matches!(
        react(&EventMessage { action: Some("die".to_string()), actor: None }),
        Reaction::Ignore
    ));
}

#[test]
fn a_failed_inspection_keeps_the_container() {
    assert_eq!(after_inspection(container("1"), None), container("1"));
    let inspection = ContainerInspectResponse {
        id: None,
        name: Some("/one".to_string()),
        created: None,
        state: None,
        image: None,
        config: None,
    };
    assert_eq!(after_inspection(container("1"), Some(inspection)).name, "one");
}

#[test]
fn an_end_undoes_a_start() {
    let mut containers = StringMap::new();
    let mut container_stats = StringMap::new();
    let mut tasks: StringMap<u8> = StringMap::new();
    insert_container(&mut containers, container("1"));
    insert_container(&mut containers, container("2"));
    assert!(needs_stream(&tasks, "2"));
    tasks.insert("2".to_string(), 22);
    assert!(!needs_stream(&tasks, "2"));
    note_stream_event(&mut container_stats, "2", StreamEvent::Measured(stats("2")));
    note_stream_event(&mut container_stats, "1", StreamEvent::Measured(stats("1")));
    assert_eq!(remove_container(&mut containers, &mut container_stats, &mut tasks, "2"), Some(22));
    assert_eq!(containers.len(), 1);
    assert_eq!(containers.get("1"), Some(&container("1")));
    assert!(container_stats.contains_key("1"));
    assert!(!container_stats.contains_key("2"));
    assert!(needs_stream(&tasks, "2"));
    assert_eq!(remove_container(&mut containers, &mut container_stats, &mut tasks, "2"), None);
    assert_eq!(containers.len(), 1);
}

#[test]
fn a_container_is_kept_under_its_id() {
    let mut containers = StringMap::new();
    insert_container(&mut containers, container("1"));
    let renamed = ContainerIdentity { name: "one".to_string(), ..container("1") };
    insert_container(&mut containers, renamed);
    assert_eq!(containers.len(), 1);
    assert_eq!(containers.get("1").unwrap().name, "one");
}

#[test]
fn the_end_of_a_stream_drops_its_measurement_alone() {
    let mut container_stats = StringMap::new();
    note_stream_event(&mut container_stats, "1", StreamEvent::Measured(stats("1")));
    note_stream_event(&mut container_stats, "2", StreamEvent::Measured(stats("2")));
    let newer = ContainerStats { cpu_usage_ns: Some(2), ..stats("1") };
    note_stream_event(&mut container_stats, "1", StreamEvent::Measured(newer));
    assert_eq!(container_stats.get("1").unwrap().cpu_usage_ns, Some(2));
    note_stream_event(&mut container_stats, "1", StreamEvent::Ended);
    assert!(container_stats.get("1").is_none());
    assert_eq!(container_stats.get("2").unwrap().cpu_usage_ns, Some(1));
    assert_eq!(STATS_RECONNECT_SECONDS, 5);
}
