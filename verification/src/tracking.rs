//! Which containers are tracked, and what is known of them.
use vstd::prelude::*;

use crate::docker_events::filter;
use crate::docker_events::filter::DockerEventFilter;
use crate::docker_events::identity;
use crate::docker_events::identity::{
    ContainerIdentity, ContainerInspectResponse, EventActor, EventMessage,
};
use crate::docker_events::stats::ContainerStats;
use crate::metrics;
use crate::string_map;
use crate::string_map::StringMap;
use crate::text;

verus! {

/// How many seconds to wait before a stream of measurements that ended is opened again.
pub const STATS_RECONNECT_SECONDS: u64 = 5;

/// The events that tell which containers run: starts and ends of containers, from `since` on.
pub fn tracked_events(since: String) -> (filter: DockerEventFilter)
    ensures
        filter@ == (filter::FilterView {
            since: Some(since@),
            until: None,
            filters: map![
                "type"@ => seq!["container"@],
                "event"@ => seq!["start"@, "die"@],
            ],
        }),
{
    let mut events: Vec<&str> = Vec::new();
    events.push("start");
    events.push("die");
    let ghost names = events@;
    let started = DockerEventFilter::containers().with_since(since);
    assert(started@.since == Some(since@));
    let filter = started.with_filters("event", events);
    proof {
        reveal_strlit("type");
        reveal_strlit("event");
        assert("type"@.len() != "event"@.len());
        let texts = choose|texts: Seq<Seq<char>>| #[trigger]
            filter::all_convert_to(names, texts) && filter@.filters == filter::extended(
                started@.filters,
                "event"@,
                texts,
            );
        assert(filter::converts_to(names[0], texts[0]));
        assert(filter::converts_to(names[1], texts[1]));
        assert(texts =~= seq!["start"@, "die"@]);
        assert(filter@.filters =~= map![
            "type"@ => seq!["container"@],
            "event"@ => seq!["start"@, "die"@],
        ]);
    }
    filter
}

// ---------------------------------------------------------------------------------------------
// Events
// ---------------------------------------------------------------------------------------------

/// What to do about an event.
#[derive(Debug)]
pub enum Reaction {
    /// The event names no container.
    Ignore,
    /// The container with the id has ended.
    Forget(String),
    /// The container may have to be tracked.
    Track(ContainerIdentity),
}

/// Whether the event reports the end of a container.
pub open spec fn reports_end(event: EventMessage) -> bool {
    text::opt_text(event.action) == Some("die"@)
}

/// Whether the reaction is the one that the event asks for: to forget the container that it names
/// where it reports an end, and to track it otherwise.
pub open spec fn is_reaction_to(event: EventMessage, reaction: Reaction) -> bool {
    match (reaction, identity::identity_of_event(event)) {
        (Reaction::Ignore, None) => true,
        (Reaction::Forget(id), Some(container)) => reports_end(event) && id@ == container.id,
        (Reaction::Track(identity), Some(container)) => !reports_end(event) && identity@
            == container,
        _ => false,
    }
}

/// Decides what to do about an event.
pub fn react(event: &EventMessage) -> (reaction: Reaction)
    ensures
        is_reaction_to(*event, reaction),
{
    let container = match ContainerIdentity::from_event(event) {
        Some(container) => container,
        None => {
            return Reaction::Ignore;
        },
    };
    let ended = match &event.action {
        Some(action) => *action == "die".to_string(),
        None => false,
    };
    if ended {
        Reaction::Forget(container.id)
    } else {
        Reaction::Track(container)
    }
}

/// Who the container is after the attempt to inspect it: who it was where the attempt failed.
pub fn after_inspection(
    container: ContainerIdentity,
    inspection: Option<ContainerInspectResponse>,
) -> (result: ContainerIdentity)
    ensures
        match inspection {
            Some(inspection) => result@ == identity::inspected(container@, inspection),
            None => result == container,
        },
{
    match inspection {
        Some(inspection) => container.apply_inspect(inspection),
        None => container,
    }
}

// ---------------------------------------------------------------------------------------------
// The tracked containers
// ---------------------------------------------------------------------------------------------

/// Tracks the container, under its id.
pub fn insert_container(containers: &mut StringMap<ContainerIdentity>, container: ContainerIdentity)
    ensures
        final(containers)@ == old(containers)@.insert(container.id@, container),
        metrics::keyed_by_id(old(containers)@) ==> metrics::keyed_by_id(final(containers)@),
{
    containers.insert(container.id.clone(), container);
}

/// Forgets the container with the id, its last measurement and the task that reads its
/// measurements. The result is the task that was removed.
pub fn remove_container<T>(
    containers: &mut StringMap<ContainerIdentity>,
    container_stats: &mut StringMap<ContainerStats>,
    stats_tasks: &mut StringMap<T>,
    container_id: &str,
) -> (task: Option<T>)
    ensures
        final(containers)@ == old(containers)@.remove(container_id@),
        final(container_stats)@ == old(container_stats)@.remove(container_id@),
        final(stats_tasks)@ == old(stats_tasks)@.remove(container_id@),
        match task {
            Some(task) => old(stats_tasks)@.contains_key(container_id@) && task == old(
                stats_tasks,
            )@[container_id@],
            None => !old(stats_tasks)@.contains_key(container_id@),
        },
        metrics::keyed_by_id(old(containers)@) ==> metrics::keyed_by_id(final(containers)@),
{
    containers.remove(container_id);
    container_stats.remove(container_id);
    stats_tasks.remove(container_id)
}

/// Whether a task has to be started that reads the measurements of the container.
pub fn needs_stream<T>(stats_tasks: &StringMap<T>, container_id: &str) -> (needed: bool)
    ensures
        needed == !stats_tasks@.contains_key(container_id@),
{
    !stats_tasks.contains_key(container_id)
}

/// What happens to a stream of measurements.
#[derive(Debug)]
pub enum StreamEvent {
    Measured(ContainerStats),
    /// The stream ended or failed.
    Ended,
}

/// The last measurements after an event of the stream of a container: the new one, or none once
/// the stream has ended.
pub open spec fn after_stream_event(
    container_stats: Map<Seq<char>, ContainerStats>,
    container_id: Seq<char>,
    event: StreamEvent,
) -> Map<Seq<char>, ContainerStats> {
    match event {
        StreamEvent::Measured(stats) => container_stats.insert(container_id, stats),
        StreamEvent::Ended => container_stats.remove(container_id),
    }
}

/// Takes note of an event of the stream of a container.
pub fn note_stream_event(
    container_stats: &mut StringMap<ContainerStats>,
    container_id: &str,
    event: StreamEvent,
)
    ensures
        final(container_stats)@ == after_stream_event(old(container_stats)@, container_id@, event),
{
    match event {
        StreamEvent::Measured(stats) => {
            container_stats.insert(container_id.to_string(), stats);
        },
        StreamEvent::Ended => {
            container_stats.remove(container_id);
        },
    }
}

// ---------------------------------------------------------------------------------------------
// Laws
// ---------------------------------------------------------------------------------------------

/// To track a container and to forget it again leaves what was tracked before, but for a container
/// that was tracked under the same id.
pub proof fn law_end_undoes_start(
    containers: Map<Seq<char>, ContainerIdentity>,
    container: ContainerIdentity,
)
    ensures
        containers.insert(container.id@, container).remove(container.id@) == containers.remove(
            container.id@,
        ),
        !containers.contains_key(container.id@) ==> containers.insert(
            container.id@,
            container,
        ).remove(container.id@) == containers,
{
    assert(containers.insert(container.id@, container).remove(container.id@) =~= containers.remove(
        container.id@,
    ));
    if !containers.contains_key(container.id@) {
        assert(containers.remove(container.id@) =~= containers);
    }
}

/// The end of a stream leaves no measurement of the container, and whatever happens to the stream
/// of one container leaves the measurements of the others.
pub proof fn law_streams_are_independent(
    container_stats: Map<Seq<char>, ContainerStats>,
    container_id: Seq<char>,
    event: StreamEvent,
    other: Seq<char>,
)
    ensures
        ({
            let after = after_stream_event(container_stats, container_id, event);
            &&& event is Ended ==> !after.contains_key(container_id)
            &&& event matches StreamEvent::Measured(stats) ==> after.contains_key(container_id)
                && after[container_id] == stats
            &&& other != container_id ==> after.contains_key(other)
                == container_stats.contains_key(other)
            &&& other != container_id && container_stats.contains_key(other) ==> after[other]
                == container_stats[other]
        }),
{
}

/// A container that is tracked is exposed.
pub proof fn law_tracked_container_is_exposed(
    containers: StringMap<ContainerIdentity>,
    arranged: Seq<ContainerIdentity>,
    id: Seq<char>,
)
    requires
        containers.wf(),
        metrics::is_arrangement(containers, arranged),
        containers@.contains_key(id),
    ensures
        arranged.contains(containers@[id]),
{
    string_map::lemma_entries_map(containers.entries());
    metrics::lemma_arrangement_has_the_same(containers, arranged);
    let i = choose|i: int|
        0 <= i < containers.entries().len() && (#[trigger] containers.entries()[i]).0 == id;
    assert(metrics::listed_containers(containers)[i] == containers@[id]);
}

/// A container that is not tracked is not exposed.
pub proof fn law_forgotten_container_is_not_exposed(
    containers: StringMap<ContainerIdentity>,
    arranged: Seq<ContainerIdentity>,
    id: Seq<char>,
    i: int,
)
    requires
        containers.wf(),
        metrics::keyed_by_id(containers@),
        metrics::is_arrangement(containers, arranged),
        !containers@.contains_key(id),
        0 <= i < arranged.len(),
    ensures
        arranged[i].id@ != id,
{
    string_map::lemma_entries_map(containers.entries());
    metrics::lemma_arrangement_has_the_same(containers, arranged);
    let listed = metrics::listed_containers(containers);
    let k = choose|k: int| 0 <= k < listed.len() && listed[k] == arranged[i];
    assert(containers.entries()[k].1 == arranged[i]);
    assert(containers@.contains_key(containers.entries()[k].0));
}

/// The end of a container that an event names by an id makes it forgotten under that very id,
/// whatever its length; to remove this id leaves no container under it. Any other event about it
/// makes a container with that very id tracked.
pub proof fn law_reaction_keeps_the_id(
    event: EventMessage,
    actor: EventActor,
    id: String,
    reaction: Reaction,
    containers: Map<Seq<char>, ContainerIdentity>,
)
    requires
        is_reaction_to(event, reaction),
        event.actor == Some(actor),
        actor.id == Some(id),
    ensures
        event.action is Some && event.action->0@ == "die"@ ==> reaction is Forget
            && reaction->Forget_0@ == id@,
        event.action is Some && event.action->0@ == "die"@ ==> !containers.remove(
            reaction->Forget_0@,
        ).contains_key(id@),
        event.action is None || event.action->0@ != "die"@ ==> reaction is Track
            && reaction->Track_0.id@ == id@,
        event.action is None || event.action->0@ != "die"@ ==> containers.insert(
            reaction->Track_0.id@,
            reaction->Track_0,
        ).contains_key(id@),
{
    identity::law_event_identifies_its_object(event, actor, id);
    if reaction is Track {
        assert(reaction->Track_0@.id == reaction->Track_0.id@);
    }
}

/// An event that names a container makes exactly the identity tracked that it tells: the name and
/// the image of its attributes, and nothing that it does not tell.
pub proof fn law_reaction_keeps_the_identity(event: EventMessage, reaction: Reaction)
    requires
        is_reaction_to(event, reaction),
        reaction is Track,
    ensures
        identity::identity_of_event(event) == Some(reaction->Track_0@),
        reaction->Track_0.started_at is None,
        reaction->Track_0.created_at is None,
        reaction->Track_0.image_id is None,
        reaction->Track_0.working_dir is None,
{
    let actor = event.actor->0;
    identity::law_event_identifies_its_object(event, actor, actor.id->0);
    assert(reaction->Track_0@.started_at is None);
    assert(reaction->Track_0@.created_at is None);
    assert(reaction->Track_0@.image_id is None);
    assert(reaction->Track_0@.working_dir is None);
}

/// An event is ignored exactly where it names no object or one without an id.
pub proof fn law_events_without_an_id_are_ignored(event: EventMessage, reaction: Reaction)
    requires
        is_reaction_to(event, reaction),
    ensures
        reaction is Ignore <==> event.actor is None || event.actor->0.id is None,
{
}

} // verus!
