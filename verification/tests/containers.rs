use docker_stats::docker_events::identity::{
    empty_string_as_none, identities_from_summaries, ContainerConfig, ContainerIdentity,
    ContainerInspectResponse, ContainerState, ContainerSummary, EventActor, EventMessage,
};
use docker_stats::string_map::StringMap;

fn texts(pairs: &[(&str, &str)]) -> StringMap<String> {
    let mut map = StringMap::new();
    for (key, value) in pairs {
        map.insert(key.to_string(), value.to_string());
    }
    map
}

fn some(text: &str) -> Option<String> {
    Some(text.to_string())
}

fn event(id: Option<&str>, attributes: Option<StringMap<String>>) -> EventMessage {
    EventMessage {
        action: some("start"),
        actor: Some(EventActor { id: id.map(|id| id.to_string()), attributes }),
    }
}

fn summary(id: Option<&str>, names: Option<Vec<&str>>) -> ContainerSummary {
    ContainerSummary {
        id: id.map(|id| id.to_string()),
        names: names.map(|names| names.iter().map(|name| name.to_string()).collect()),
        image: some("redis"),
        image_id: some("sha256:1"),
        created: Some(-12),
        labels: Some(texts(&[("a", "1")])),
    }
}

fn silent_inspect() -> ContainerInspectResponse {
    ContainerInspectResponse {
        id: None,
        name: None,
        created: None,
        state: None,
        image: None,
        config: None,
    }
}

fn known() -> ContainerIdentity {
    ContainerIdentity {
        id: "1".to_string(),
        name: "one".to_string(),
        created_at: some("before"),
        started_at: some("earlier"),
        image: some("redis"),
        image_id: some("sha256:1"),
        working_dir: some("/"),
        labels: texts(&[("a", "1")]),
    }
}

#[test]
fn an_event_names_its_container() {
    let attributes = texts(&[("image", "redis"), ("name", "cache"), ("other", "x")]);
    let identity = ContainerIdentity::from_event(&event(Some("42"), Some(attributes))).unwrap();
    assert_eq!(
        identity,
        ContainerIdentity {
            id: "42".to_string(),
            name: "cache".to_string(),
            created_at: None,
            started_at: None,
            image: some("redis"),
            image_id: None,
            working_dir: None,
            labels: StringMap::new(),
        }
    );
}

#[test]
fn an_event_without_a_name_names_the_id() {
    let identity = ContainerIdentity::from_event(&event(Some("42"), None)).unwrap();
    assert_eq!(identity.name, "42");
    assert_eq!(identity.image, None);
    let identity =
        ContainerIdentity::from_event(&event(Some("42"), Some(StringMap::new()))).unwrap();
    assert_eq!(identity.name, "42");
}

#[test]
fn an_event_without_an_actor_or_an_id_names_no_container() {
    assert!(ContainerIdentity::from_event(&event(None, None)).is_none());
    assert!(ContainerIdentity::from_event(&EventMessage { action: None, actor: None }).is_none());
}

#[test]
fn a_summary_names_its_container() {
    let identity =
        ContainerIdentity::from_summary(summary(Some("42"), Some(vec!["//cache", "/x"]))).unwrap();
    assert_eq!(
        identity,
        ContainerIdentity {
            id: "42".to_string(),
            name: "cache".to_string(),
            created_at: some("-12"),
            started_at: None,
            image: some("redis"),
            image_id: some("sha256:1"),
            working_dir: None,
            labels: texts(&[("a", "1")]),
        }
    );
}

#[test]
fn a_summary_without_a_name_names_the_id() {
    assert_eq!(ContainerIdentity::from_summary(summary(Some("42"), None)).unwrap().name, "42");
    let nameless = ContainerIdentity::from_summary(summary(Some("42"), Some(vec![]))).unwrap();
    assert_eq!(nameless.name, "42");
    let slashes = ContainerIdentity::from_summary(summary(Some("42"), Some(vec!["/"]))).unwrap();
    assert_eq!(slashes.name, "");
}

#[test]
fn summaries_without_an_id_are_left_out() {
    let identities = identities_from_summaries(vec![
        summary(Some("1"), Some(vec!["/one"])),
        summary(None, Some(vec!["/two"])),
        summary(Some("3"), None),
    ]);
    let names: Vec<&str> = identities.iter().map(|identity| identity.name.as_str()).collect();
    assert_eq!(names, vec!["one", "3"]);
    assert!(ContainerIdentity::from_summary(summary(None, None)).is_none());
}

#[test]
fn an_inspection_tells_who_the_container_is() {
    let inspect = ContainerInspectResponse {
        id: some("2"),
        name: some("/two"),
        created: some("now"),
        state: Some(ContainerState { started_at: some("later") }),
        image: some("sha256:2"),
        config: Some(ContainerConfig {
            image: some("nginx"),
            working_dir: some("/srv"),
            labels: Some(texts(&[("b", "2")])),
        }),
    };
    let expected = ContainerIdentity {
        id: "2".to_string(),
        name: "two".to_string(),
        created_at: some("now"),
        started_at: some("later"),
        image: some("nginx"),
        image_id: some("sha256:2"),
        working_dir: some("/srv"),
        labels: texts(&[("b", "2")]),
    };
    let once = known().apply_inspect(inspect.clone());
    assert_eq!(once, expected);
    assert_eq!(once.apply_inspect(inspect), expected);
}

#[test]
fn a_silent_inspection_keeps_all_but_the_times() {
    assert_eq!(
        known().apply_inspect(silent_inspect()),
        ContainerIdentity { created_at: None, started_at: None, ..known() }
    );
}

#[test]
fn an_inspected_configuration_may_leave_things_open() {
    let config = ContainerConfig { image: None, working_dir: some(""), labels: None };
    let state = ContainerState { started_at: some("") };
    let inspect = ContainerInspectResponse {
        config: Some(config),
        state: Some(state),
        ..silent_inspect()
    };
    assert_eq!(
        known().apply_inspect(inspect),
        ContainerIdentity { created_at: None, started_at: None, working_dir: None, ..known() }
    );
}

#[test]
fn empty_texts_are_none() {
    assert_eq!(empty_string_as_none(some("")), None);
    assert_eq!(empty_string_as_none(None), None);
    assert_eq!(empty_string_as_none(some(" ")), some(" "));
}
