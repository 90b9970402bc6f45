//! Who a container is: from an event, from the list of containers, from an inspection.
use vstd::prelude::*;

use crate::string_map::StringMap;
use crate::text;

verus! {

/// The object that an event is about.
#[derive(Clone, Debug)]
pub struct EventActor {
    pub id: Option<String>,
    pub attributes: Option<StringMap<String>>,
}

/// An event that the Docker daemon reports.
#[derive(Clone, Debug)]
pub struct EventMessage {
    pub action: Option<String>,
    pub actor: Option<EventActor>,
}

/// A container as the list of containers shows it.
#[derive(Clone, Debug)]
pub struct ContainerSummary {
    pub id: Option<String>,
    pub names: Option<Vec<String>>,
    pub image: Option<String>,
    pub image_id: Option<String>,
    pub created: Option<i64>,
    pub labels: Option<StringMap<String>>,
}

/// The state of an inspected container.
#[derive(Clone, Debug)]
pub struct ContainerState {
    pub started_at: Option<String>,
}

/// The configuration of an inspected container.
#[derive(Clone, Debug)]
pub struct ContainerConfig {
    pub image: Option<String>,
    pub working_dir: Option<String>,
    pub labels: Option<StringMap<String>>,
}

/// What the inspection of a container returns.
#[derive(Clone, Debug)]
pub struct ContainerInspectResponse {
    pub id: Option<String>,
    pub name: Option<String>,
    pub created: Option<String>,
    pub state: Option<ContainerState>,
    pub image: Option<String>,
    pub config: Option<ContainerConfig>,
}

/// Who a container is.
#[derive(Clone, Debug, PartialEq, Eq)]
pub struct ContainerIdentity {
    pub id: String,
    pub name: String,
    pub created_at: Option<String>,
    pub started_at: Option<String>,
    pub image: Option<String>,
    pub image_id: Option<String>,
    pub working_dir: Option<String>,
    pub labels: StringMap<String>,
}

/// The texts that a [`ContainerIdentity`] holds.
#[verifier::ext_equal]
pub struct IdentityView {
    pub id: Seq<char>,
    pub name: Seq<char>,
    pub created_at: Option<Seq<char>>,
    pub started_at: Option<Seq<char>>,
    pub image: Option<Seq<char>>,
    pub image_id: Option<Seq<char>>,
    pub working_dir: Option<Seq<char>>,
    pub labels: Map<Seq<char>, Seq<char>>,
}

impl View for ContainerIdentity {
    type V = IdentityView;

    open spec fn view(&self) -> IdentityView {
        IdentityView {
            id: self.id@,
            name: self.name@,
            created_at: text::opt_text(self.created_at),
            started_at: text::opt_text(self.started_at),
            image: text::opt_text(self.image),
            image_id: text::opt_text(self.image_id),
            working_dir: text::opt_text(self.working_dir),
            labels: self.labels.labels(),
        }
    }
}

/// The labels that are told, or `default` where none are told.
pub open spec fn labels_or(
    labels: Option<StringMap<String>>,
    default: Map<Seq<char>, Seq<char>>,
) -> Map<Seq<char>, Seq<char>> {
    match labels {
        Some(labels) => labels.labels(),
        None => default,
    }
}

/// The attribute `key` of the object that an event is about.
pub open spec fn attribute(actor: EventActor, key: Seq<char>) -> Option<Seq<char>> {
    match actor.attributes {
        Some(attributes) => if attributes.labels().contains_key(key) {
            Some(attributes.labels()[key])
        } else {
            None
        },
        None => None,
    }
}

/// The first text, where there is one, else the second.
pub open spec fn or_text(first: Option<Seq<char>>, second: Option<Seq<char>>) -> Option<Seq<char>> {
    match first {
        Some(text) => Some(text),
        None => second,
    }
}

/// The text, unless it is empty.
pub open spec fn nonempty(value: Option<Seq<char>>) -> Option<Seq<char>> {
    match value {
        Some(text) => if text.len() == 0 {
            None
        } else {
            Some(text)
        },
        None => None,
    }
}

/// The container that an event is about: the object that the event names, under its attribute
/// `name`, or under its id where it has no such attribute.
pub open spec fn identity_of_event(event: EventMessage) -> Option<IdentityView> {
    match event.actor {
        Some(actor) => match actor.id {
            Some(id) => Some(
                IdentityView {
                    id: id@,
                    name: match attribute(actor, "name"@) {
                        Some(name) => name,
                        None => id@,
                    },
                    created_at: None,
                    started_at: None,
                    image: attribute(actor, "image"@),
                    image_id: None,
                    working_dir: None,
                    labels: Map::empty(),
                },
            ),
            None => None,
        },
        None => None,
    }
}

/// The container that a line of the list of containers is about: under its first name, without the
/// slashes that this begins with, or under its id where it has no name.
pub open spec fn identity_of_summary(summary: ContainerSummary) -> Option<IdentityView> {
    match summary.id {
        Some(id) => Some(
            IdentityView {
                id: id@,
                name: match summary.names {
                    Some(names) => if names@.len() > 0 {
                        text::trim_start(names@[0]@, '/')
                    } else {
                        id@
                    },
                    None => id@,
                },
                created_at: match summary.created {
                    Some(created) => Some(text::signed_decimal(created as int)),
                    None => None,
                },
                started_at: None,
                image: text::opt_text(summary.image),
                image_id: text::opt_text(summary.image_id),
                working_dir: None,
                labels: labels_or(summary.labels, Map::empty()),
            },
        ),
        None => None,
    }
}

/// What is known of the container after an inspection: what the inspection tells, and of the id,
/// the name, the image and the labels what was known before where it does not tell.
pub open spec fn inspected(
    identity: IdentityView,
    inspect: ContainerInspectResponse,
) -> IdentityView {
    IdentityView {
        id: match inspect.id {
            Some(id) => id@,
            None => identity.id,
        },
        name: match inspect.name {
            Some(name) => text::trim_start(name@, '/'),
            None => identity.name,
        },
        created_at: text::opt_text(inspect.created),
        started_at: match inspect.state {
            Some(state) => nonempty(text::opt_text(state.started_at)),
            None => None,
        },
        image: match inspect.config {
            Some(config) => or_text(text::opt_text(config.image), identity.image),
            None => identity.image,
        },
        image_id: or_text(text::opt_text(inspect.image), identity.image_id),
        working_dir: match inspect.config {
            Some(config) => nonempty(text::opt_text(config.working_dir)),
            None => identity.working_dir,
        },
        labels: match inspect.config {
            Some(config) => labels_or(config.labels, identity.labels),
            None => identity.labels,
        },
    }
}

/// The value, unless it is an empty text.
pub fn empty_string_as_none(value: Option<String>) -> (result: Option<String>)
    ensures
        text::opt_text(result) == nonempty(text::opt_text(value)),
        result is Some ==> result == value,
{
    match value {
        Some(text) => if text.as_str().is_empty() {
            None
        } else {
            Some(text)
        },
        None => None,
    }
}

/// The attribute `key`, copied.
fn copied_attribute(actor: &EventActor, key: &str) -> (value: Option<String>)
    ensures
        text::opt_text(value) == attribute(*actor, key@),
{
    match &actor.attributes {
        Some(attributes) => match attributes.get(key) {
            Some(value) => Some(value.clone()),
            None => None,
        },
        None => None,
    }
}

/// The first of the two that there is.
fn or_else(first: Option<String>, second: Option<String>) -> (result: Option<String>)
    ensures
        text::opt_text(result) == or_text(text::opt_text(first), text::opt_text(second)),
{
    match first {
        Some(text) => Some(text),
        None => second,
    }
}

impl ContainerIdentity {
    /// The container that an event is about, if it names one.
    pub fn from_event(event: &EventMessage) -> (identity: Option<Self>)
        ensures
            match identity {
                Some(identity) => identity_of_event(*event) == Some(identity@),
                None => identity_of_event(*event) is None,
            },
    {
        let actor = match &event.actor {
            Some(actor) => actor,
            None => {
                return None;
            },
        };
        let id = match &actor.id {
            Some(id) => id.clone(),
            None => {
                return None;
            },
        };
        let name = match copied_attribute(actor, "name") {
            Some(name) => name,
            None => id.clone(),
        };
        let image = copied_attribute(actor, "image");
        let identity = ContainerIdentity {
            id,
            name,
            created_at: None,
            started_at: None,
            image,
            image_id: None,
            working_dir: None,
            labels: StringMap::new(),
        };
        assert(identity@.labels =~= Map::empty());
        Some(identity)
    }

    /// The container that a line of the list of containers is about, if it names one.
    pub fn from_summary(summary: ContainerSummary) -> (identity: Option<Self>)
        ensures
            match identity {
                Some(identity) => identity_of_summary(summary) == Some(identity@),
                None => identity_of_summary(summary) is None,
            },
    {
        let id = match summary.id {
            Some(id) => id,
            None => {
                return None;
            },
        };
        let name = match &summary.names {
            Some(names) => if names.len() > 0 {
                text::trimmed_start(names[0].as_str(), '/')
            } else {
                id.clone()
            },
            None => id.clone(),
        };
        let created_at = match summary.created {
            Some(created) => Some(text::signed_to_string(created)),
            None => None,
        };
        let labels = match summary.labels {
            Some(labels) => labels,
            None => StringMap::new(),
        };
        let identity = ContainerIdentity {
            id,
            name,
            created_at,
            started_at: None,
            image: summary.image,
            image_id: summary.image_id,
            working_dir: None,
            labels,
        };
        assert(identity@.labels =~= labels_or(summary.labels, Map::empty()));
        Some(identity)
    }

    /// What is known of the container after an inspection.
    pub fn apply_inspect(self, inspect: ContainerInspectResponse) -> (identity: Self)
        ensures
            identity@ == inspected(self@, inspect),
    {
        let id = match inspect.id {
            Some(id) => id,
            None => self.id,
        };
        let name = match &inspect.name {
            Some(name) => text::trimmed_start(name.as_str(), '/'),
            None => self.name,
        };
        let started_at = match inspect.state {
            Some(state) => empty_string_as_none(state.started_at),
            None => None,
        };
        let image_id = or_else(inspect.image, self.image_id);
        match inspect.config {
            Some(config) => {
                let labels = match config.labels {
                    Some(labels) => labels,
                    None => self.labels,
                };
                ContainerIdentity {
                    id,
                    name,
                    created_at: inspect.created,
                    started_at,
                    image: or_else(config.image, self.image),
                    image_id,
                    working_dir: empty_string_as_none(config.working_dir),
                    labels,
                }
            },
            None => ContainerIdentity {
                id,
                name,
                created_at: inspect.created,
                started_at,
                image: self.image,
                image_id,
                working_dir: self.working_dir,
                labels: self.labels,
            },
        }
    }
}

/// The containers that a list of containers names, in its order.
pub open spec fn identities_of_summaries(summaries: Seq<ContainerSummary>) -> Seq<IdentityView>
    decreases summaries.len(),
{
    if summaries.len() == 0 {
        Seq::empty()
    } else {
        let rest = identities_of_summaries(summaries.drop_last());
        match identity_of_summary(summaries.last()) {
            Some(identity) => rest.push(identity),
            None => rest,
        }
    }
}

/// The views of a list of identities.
pub open spec fn identity_views(identities: Seq<ContainerIdentity>) -> Seq<IdentityView> {
    identities.map_values(|identity: ContainerIdentity| identity@)
}

/// The containers that a list of containers names, in its order.
pub fn identities_from_summaries(summaries: Vec<ContainerSummary>) -> (identities: Vec<
    ContainerIdentity,
>)
    ensures
        identity_views(identities@) == identities_of_summaries(summaries@),
{
    let ghost all = summaries@;
    let ghost mut taken: int = 0;
    let mut rest = summaries;
    let mut identities: Vec<ContainerIdentity> = Vec::new();
    assert(identity_views(identities@) =~= identities_of_summaries(all.take(0)));
    while rest.len() > 0
        invariant
            0 <= taken <= all.len(),
            rest@ == all.skip(taken),
            identity_views(identities@) == identities_of_summaries(all.take(taken)),
        decreases rest@.len(),
    {
        let summary = rest.remove(0);
        let ghost before = identity_views(identities@);
        match ContainerIdentity::from_summary(summary) {
            Some(identity) => {
                identities.push(identity);
                assert(identity_views(identities@) =~= before.push(identity@));
            },
            None => {},
        }
        proof {
            assert(all.take(taken + 1).drop_last() =~= all.take(taken));
            assert(all.take(taken + 1).last() == summary);
            taken = taken + 1;
            assert(rest@ =~= all.skip(taken));
        }
    }
    assert(all.take(taken) =~= all);
    identities
}

// ---------------------------------------------------------------------------------------------
// Laws
// ---------------------------------------------------------------------------------------------

proof fn lemma_trim_start(value: Seq<char>, character: char)
    ensures
        text::trim_start(value, character).len() > 0 ==> text::trim_start(value, character)[0]
            != character,
    decreases value.len(),
{
    if value.len() > 0 && value[0] == character {
        lemma_trim_start(value.drop_first(), character);
    }
}

/// A name that an inspection tells never begins with a slash.
pub proof fn law_inspected_name_has_no_leading_slash(
    identity: IdentityView,
    inspect: ContainerInspectResponse,
)
    requires
        inspect.name is Some,
    ensures
        inspected(identity, inspect).name.len() > 0 ==> inspected(identity, inspect).name[0] != '/',
{
    lemma_trim_start(inspect.name->0@, '/');
}

/// A name that the list of containers tells never begins with a slash.
pub proof fn law_listed_name_has_no_leading_slash(summary: ContainerSummary)
    requires
        summary.id is Some,
        summary.names is Some,
        summary.names->0@.len() > 0,
    ensures
        identity_of_summary(summary)->0.name.len() > 0 ==> identity_of_summary(summary)->0.name[0]
            != '/',
{
    lemma_trim_start(summary.names->0@[0]@, '/');
}

/// To apply an inspection a second time changes nothing.
pub proof fn law_inspection_is_idempotent(
    identity: IdentityView,
    inspect: ContainerInspectResponse,
)
    ensures
        inspected(inspected(identity, inspect), inspect) == inspected(identity, inspect),
{
}

/// An inspection that tells nothing but when the container was created and started leaves the rest
/// as it was.
pub proof fn law_silent_inspection_keeps_identity(
    identity: IdentityView,
    inspect: ContainerInspectResponse,
)
    requires
        inspect.id is None,
        inspect.name is None,
        inspect.image is None,
        inspect.config is None,
    ensures
        inspected(identity, inspect) == (IdentityView {
            created_at: inspected(identity, inspect).created_at,
            started_at: inspected(identity, inspect).started_at,
            ..identity
        }),
{
}

/// The views of a list of identities and of a single one hold the texts of the fields.
pub proof fn law_identity_views_hold_the_fields(identities: Seq<ContainerIdentity>, i: int)
    requires
        0 <= i < identities.len(),
    ensures
        identity_views(identities).len() == identities.len(),
        identity_views(identities)[i] == identities[i]@,
        identities[i]@.id == identities[i].id@,
        identities[i]@.name == identities[i].name@,
        is_text(identities[i]@.created_at, identities[i].created_at),
        is_text(identities[i]@.started_at, identities[i].started_at),
        is_text(identities[i]@.image, identities[i].image),
        is_text(identities[i]@.image_id, identities[i].image_id),
        is_text(identities[i]@.working_dir, identities[i].working_dir),
        is_text_map(identities[i]@.labels, identities[i].labels),
{
    lemma_labels_are_texts(identities[i].labels);
}

proof fn lemma_labels_are_texts(labels: StringMap<String>)
    ensures
        is_text_map(labels.labels(), labels),
{
    assert(labels.labels().dom() =~= labels@.dom());
}

/// Whether `text` is the text of the string, and there is one exactly where there is a string.
pub open spec fn is_text(text: Option<Seq<char>>, string: Option<String>) -> bool {
    (text is Some <==> string is Some) && (string is Some ==> text->0 == string->0@)
}

/// Whether `texts` has the keys of the map, each with the text of its value.
pub open spec fn is_text_map(texts: Map<Seq<char>, Seq<char>>, map: StringMap<String>) -> bool {
    texts.dom() == map@.dom() && forall|key: Seq<char>| #[trigger]
        map@.contains_key(key) ==> texts[key] == map@[key]@
}

/// An event that names an object by an id is about the container with that very id, whatever its
/// length. Its name is the attribute `name`, or the id; its image is the attribute `image`.
/// Nothing else is known.
pub proof fn law_event_identifies_its_object(event: EventMessage, actor: EventActor, id: String)
    requires
        event.actor == Some(actor),
        actor.id == Some(id),
    ensures
        identity_of_event(event) is Some,
        identity_of_event(event)->0.id == id@,
        actor.attributes is None ==> identity_of_event(event)->0.name == id@
            && identity_of_event(event)->0.image is None,
        actor.attributes matches Some(attributes) ==> {
            let identity = identity_of_event(event)->0;
            &&& attributes@.contains_key("name"@) ==> identity.name == attributes@["name"@]@
            &&& !attributes@.contains_key("name"@) ==> identity.name == id@
            &&& attributes@.contains_key("image"@) ==> identity.image == Some(
                attributes@["image"@]@,
            )
            &&& !attributes@.contains_key("image"@) ==> identity.image is None
        },
        identity_of_event(event)->0.created_at is None,
        identity_of_event(event)->0.started_at is None,
        identity_of_event(event)->0.image_id is None,
        identity_of_event(event)->0.working_dir is None,
        forall|key: Seq<char>| !identity_of_event(event)->0.labels.contains_key(key),
{
}

/// An event that names no object, or one without an id, is about no container.
pub proof fn law_event_without_an_id_identifies_nothing(event: EventMessage)
    requires
        event.actor matches Some(actor) ==> actor.id is None,
    ensures
        identity_of_event(event) is None,
{
}

/// A line of the list of containers is about the container with its very id. Of the names the
/// first counts, from its first character on that is no slash; the rest is as the line tells it.
pub proof fn law_summary_identifies_its_container(summary: ContainerSummary, id: String)
    requires
        summary.id == Some(id),
    ensures
        identity_of_summary(summary) is Some,
        identity_of_summary(summary)->0.id == id@,
        summary.names is None || summary.names->0@.len() == 0 ==> identity_of_summary(
            summary,
        )->0.name == id@,
        summary.names is Some && summary.names->0@.len() > 0 ==> exists|n: int|
            0 <= n <= summary.names->0@[0]@.len() && identity_of_summary(summary)->0.name == (
            #[trigger] summary.names->0@[0]@.skip(n)) && (forall|i: int|
                0 <= i < n ==> summary.names->0@[0]@[i] == '/') && (n
                < summary.names->0@[0]@.len() ==> summary.names->0@[0]@[n] != '/'),
        summary.created is None ==> identity_of_summary(summary)->0.created_at is None,
        summary.created matches Some(created) ==> {
            let written = identity_of_summary(summary)->0.created_at;
            &&& written is Some
            &&& created >= 0 ==> text::all_digits(written->0) && text::digits_value(written->0)
                == created
            &&& created < 0 ==> written->0[0] == '-' && text::all_digits(written->0.skip(1))
                && text::digits_value(written->0.skip(1)) == -(created as int)
        },
        is_text(identity_of_summary(summary)->0.image, summary.image),
        is_text(identity_of_summary(summary)->0.image_id, summary.image_id),
        identity_of_summary(summary)->0.started_at is None,
        identity_of_summary(summary)->0.working_dir is None,
        summary.labels matches Some(labels) ==> is_text_map(
            identity_of_summary(summary)->0.labels,
            labels,
        ),
        summary.labels is None ==> forall|key: Seq<char>|
            !identity_of_summary(summary)->0.labels.contains_key(key),
{
    if summary.names is Some && summary.names->0@.len() > 0 {
        text::law_trimmed_is_the_rest(summary.names->0@[0]@, '/');
    }
    if let Some(labels) = summary.labels {
        lemma_labels_are_texts(labels);
    }
    if let Some(created) = summary.created {
        text::law_signed_decimal_reads_back(created as int);
    }
}

/// Of a list the lines with an id count, in their order.
pub proof fn law_summaries_are_taken_one_by_one(
    summaries: Seq<ContainerSummary>,
    summary: ContainerSummary,
)
    ensures
        identities_of_summaries(Seq::empty()).len() == 0,
        summary.id is None ==> identities_of_summaries(summaries.push(summary))
            == identities_of_summaries(summaries),
        summary.id is Some ==> identities_of_summaries(summaries.push(summary))
            == identities_of_summaries(summaries).push(identity_of_summary(summary)->0),
{
    assert(summaries.push(summary).drop_last() =~= summaries);
}

/// An inspection tells the id, the name from its first character on that is no slash, and the
/// image id, where it tells them; where it does not, what was known stays.
pub proof fn law_inspection_tells_who_it_is(
    identity: IdentityView,
    inspect: ContainerInspectResponse,
)
    ensures
        inspect.id matches Some(id) ==> inspected(identity, inspect).id == id@,
        inspect.id is None ==> inspected(identity, inspect).id == identity.id,
        inspect.name matches Some(name) ==> exists|n: int|
            0 <= n <= name@.len() && inspected(identity, inspect).name == (#[trigger] name@.skip(n))
                && (forall|i: int| 0 <= i < n ==> name@[i] == '/') && (n < name@.len() ==> name@[n]
                != '/'),
        inspect.name is None ==> inspected(identity, inspect).name == identity.name,
        inspect.image matches Some(image) ==> inspected(identity, inspect).image_id == Some(image@),
        inspect.image is None ==> inspected(identity, inspect).image_id == identity.image_id,
{
    if let Some(name) = inspect.name {
        text::law_trimmed_is_the_rest(name@, '/');
    }
}

/// When a container was created and started is what the inspection tells, and unknown where it does
/// not tell it or tells an empty text.
pub proof fn law_inspection_tells_the_times(
    identity: IdentityView,
    inspect: ContainerInspectResponse,
)
    ensures
        is_text(inspected(identity, inspect).created_at, inspect.created),
        inspect.state is None ==> inspected(identity, inspect).started_at is None,
        inspect.state matches Some(state) ==> (match state.started_at {
            Some(started_at) => if started_at@.len() == 0 {
                inspected(identity, inspect).started_at is None
            } else {
                inspected(identity, inspect).started_at == Some(started_at@)
            },
            None => inspected(identity, inspect).started_at is None,
        }),
{
}

/// The image and the labels are those of the inspected configuration, or those that were known
/// where it does not tell them; the working directory is that of the configuration unless it is
/// empty. Without a configuration all three stay.
pub proof fn law_inspection_tells_the_configuration(
    identity: IdentityView,
    inspect: ContainerInspectResponse,
)
    ensures
        inspect.config is None ==> {
            &&& inspected(identity, inspect).image == identity.image
            &&& inspected(identity, inspect).working_dir == identity.working_dir
            &&& inspected(identity, inspect).labels == identity.labels
        },
        inspect.config matches Some(config) ==> {
            let after = inspected(identity, inspect);
            &&& config.image matches Some(image) ==> after.image == Some(image@)
            &&& config.image is None ==> after.image == identity.image
            &&& config.labels matches Some(labels) ==> is_text_map(after.labels, labels)
            &&& config.labels is None ==> after.labels == identity.labels
            &&& match config.working_dir {
                Some(working_dir) => if working_dir@.len() == 0 {
                    after.working_dir is None
                } else {
                    after.working_dir == Some(working_dir@)
                },
                None => after.working_dir is None,
            }
        },
{
    if let Some(config) = inspect.config {
        if let Some(labels) = config.labels {
            lemma_labels_are_texts(labels);
        }
    }
}

} // verus!
