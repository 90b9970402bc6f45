//! Which events of the Docker daemon to watch.
use std::collections::HashMap;

use bollard::query_parameters::{EventsOptions, EventsOptionsBuilder};
use vstd::prelude::*;

use crate::string_map;
use crate::string_map::StringMap;
use crate::text;

verus! {

// ---------------------------------------------------------------------------------------------
// Conversions into strings
// ---------------------------------------------------------------------------------------------

/// `String::from(&str)`: a string with the text of the slice.
pub assume_specification<'a>[ <String as From<&'a str>>::from ](slice: &str) -> (string: String)
    ensures
        string@ == slice@,
;

/// `From::from` from a type to itself: the value itself.
pub assume_specification<Same>[ <Same as From<Same>>::from ](value: Same) -> (result: Same)
    ensures
        result == value,
;

/// Whether `value` may convert into a string that holds `result`.
pub open spec fn converts_to<S: Into<String>>(value: S, result: Seq<char>) -> bool {
    exists|string: String|
        call_ensures(<S as Into<String>>::into, (value,), string) && #[trigger] string@ == result
}

/// Whether the values may convert into strings that hold the results, one for one.
pub open spec fn all_convert_to<S: Into<String>>(values: Seq<S>, results: Seq<Seq<char>>) -> bool {
    &&& values.len() == results.len()
    &&& forall|i: int| 0 <= i < values.len() ==> converts_to(values[i], #[trigger] results[i])
}

// ---------------------------------------------------------------------------------------------
// The options of the Docker client
// ---------------------------------------------------------------------------------------------

/// `EventsOptions`: what the request for events asks for.
#[verifier::external_type_specification]
pub struct ExEventsOptions(EventsOptions);

/// `EventsOptionsBuilder`: the options as far as they are set.
#[verifier::external_type_specification]
#[verifier::external_body]
pub struct ExEventsOptionsBuilder(EventsOptionsBuilder);

/// The options that a builder holds.
pub uninterp spec fn pending_options(builder: EventsOptionsBuilder) -> EventsOptions;

/// `EventsOptionsBuilder::default`: a builder in which no option is set.
pub assume_specification[ <EventsOptionsBuilder as Default>::default ]() -> (builder:
    EventsOptionsBuilder)
    ensures
        pending_options(builder).since is None,
        pending_options(builder).until is None,
        pending_options(builder).filters is None,
;

/// `EventsOptionsBuilder::since`: sets when the events begin, and nothing else.
pub assume_specification[ EventsOptionsBuilder::since ](
    builder: EventsOptionsBuilder,
    since: &str,
) -> (result: EventsOptionsBuilder)
    ensures
        text::opt_text(pending_options(result).since) == Some(since@),
        pending_options(result).until == pending_options(builder).until,
        pending_options(result).filters == pending_options(builder).filters,
;

/// `EventsOptionsBuilder::until`: sets when the events end, and nothing else.
pub assume_specification[ EventsOptionsBuilder::until ](
    builder: EventsOptionsBuilder,
    until: &str,
) -> (result: EventsOptionsBuilder)
    ensures
        text::opt_text(pending_options(result).until) == Some(until@),
        pending_options(result).since == pending_options(builder).since,
        pending_options(result).filters == pending_options(builder).filters,
;

/// `EventsOptionsBuilder::build`: the options that the builder holds.
pub assume_specification[ EventsOptionsBuilder::build ](builder: EventsOptionsBuilder) -> (options:
    EventsOptions)
    ensures
        options == pending_options(builder),
;

/// Whether `map` has the keys of `filters`, each with the same values in the same order.
pub open spec fn same_filters(
    map: Map<String, Vec<String>>,
    filters: Map<Seq<char>, Seq<Seq<char>>>,
) -> bool {
    forall|key: String|
        #![trigger map.contains_key(key)]
        #![trigger filters.contains_key(key@)]
        {
            &&& map.contains_key(key) <==> filters.contains_key(key@)
            &&& map.contains_key(key) ==> text::texts(map[key]@) == filters[key@]
        }
}

/// `EventsOptionsBuilder::filters`: sets the filters to those of the map, and nothing else.
#[verifier::external_body]
fn set_filters(builder: EventsOptionsBuilder, filters: &StringMap<Vec<String>>) -> (result:
    EventsOptionsBuilder)
    ensures
        pending_options(result).filters is Some,
        same_filters(pending_options(result).filters->0@, filter_lists(filters@)),
        pending_options(result).since == pending_options(builder).since,
        pending_options(result).until == pending_options(builder).until,
{
    let map: HashMap<String, Vec<String>> = filters.pairs().iter().cloned().collect();
    builder.filters(&map)
}

// ---------------------------------------------------------------------------------------------
// The filter
// ---------------------------------------------------------------------------------------------

/// Which events to watch: those in a span of time that pass every filter.
#[derive(Clone, Debug)]
pub struct DockerEventFilter {
    since: Option<String>,
    until: Option<String>,
    filters: StringMap<Vec<String>>,
}

/// The texts that a [`DockerEventFilter`] holds.
#[verifier::ext_equal]
pub struct FilterView {
    pub since: Option<Seq<char>>,
    pub until: Option<Seq<char>>,
    /// Under each key, the values that pass.
    pub filters: Map<Seq<char>, Seq<Seq<char>>>,
}

/// The lists as texts.
pub open spec fn filter_lists(map: Map<Seq<char>, Vec<String>>) -> Map<Seq<char>, Seq<Seq<char>>> {
    map.map_values(|list: Vec<String>| text::texts(list@))
}

/// The filters with `values` added at the end of the list under `key`.
pub open spec fn extended(
    filters: Map<Seq<char>, Seq<Seq<char>>>,
    key: Seq<char>,
    values: Seq<Seq<char>>,
) -> Map<Seq<char>, Seq<Seq<char>>> {
    let before = if filters.contains_key(key) {
        filters[key]
    } else {
        Seq::empty()
    };
    filters.insert(key, before + values)
}

/// Whether `after` is `before` with the value added under the key.
pub open spec fn adds_filter<K: Into<String>, V: Into<String>>(
    before: FilterView,
    key: K,
    value: V,
    after: FilterView,
) -> bool {
    exists|key_text: Seq<char>, value_text: Seq<char>| #[trigger]
        converts_to(key, key_text) && #[trigger] converts_to(value, value_text) && after == (
        FilterView {
            filters: extended(before.filters, key_text, seq![value_text]),
            ..before
        })
}

/// Whether `after` is `before` with the values added under the key.
pub open spec fn adds_filters<K: Into<String>, V: Into<String>>(
    before: FilterView,
    key: K,
    values: Seq<V>,
    after: FilterView,
) -> bool {
    exists|key_text: Seq<char>, value_texts: Seq<Seq<char>>| #[trigger]
        converts_to(key, key_text) && #[trigger] all_convert_to(values, value_texts) && after == (
        FilterView {
            filters: extended(before.filters, key_text, value_texts),
            ..before
        })
}

impl View for DockerEventFilter {
    type V = FilterView;

    closed spec fn view(&self) -> FilterView {
        FilterView {
            since: text::opt_text(self.since),
            until: text::opt_text(self.until),
            filters: filter_lists(self.filters@),
        }
    }
}

impl Default for DockerEventFilter {
    fn default() -> (filter: Self)
        ensures
            filter@ == (FilterView { since: None, until: None, filters: Map::empty() }),
    {
        let filter = DockerEventFilter { since: None, until: None, filters: StringMap::new() };
        assert(filter@.filters =~= Map::empty());
        filter
    }
}

impl DockerEventFilter {
    /// The events about containers.
    pub fn containers() -> (filter: Self)
        ensures
            filter@ == (FilterView {
                since: None,
                until: None,
                filters: map!["type"@ => seq!["container"@]],
            }),
    {
        let filter = DockerEventFilter::default().with_filter("type", "container");
        assert(filter@.filters =~= map!["type"@ => seq!["container"@]]) by {
            assert(Seq::<Seq<char>>::empty() + seq!["container"@] =~= seq!["container"@]);
        }
        filter
    }

    /// The filter from `since` on.
    pub fn with_since(self, since: impl Into<String>) -> (filter: Self)
        ensures
            exists|text: Seq<char>| #[trigger]
                converts_to(since, text) && filter@ == (FilterView { since: Some(text), ..self@ }),
    {
        let start: String = since.into();
        assert(converts_to(since, start@));
        DockerEventFilter { since: Some(start), until: self.until, filters: self.filters }
    }

    /// The filter up to `until`.
    pub fn with_until(self, until: impl Into<String>) -> (filter: Self)
        ensures
            exists|text: Seq<char>| #[trigger]
                converts_to(until, text) && filter@ == (FilterView { until: Some(text), ..self@ }),
    {
        let end: String = until.into();
        assert(converts_to(until, end@));
        DockerEventFilter { since: self.since, until: Some(end), filters: self.filters }
    }

    /// The filter that lets `value` pass too under `key`.
    pub fn with_filter(self, key: impl Into<String>, value: impl Into<String>) -> (filter: Self)
        ensures
            adds_filter(self@, key, value, filter@),
    {
        let key_string: String = key.into();
        let value_string: String = value.into();
        assert(converts_to(key, key_string@));
        assert(converts_to(value, value_string@));
        let mut values: Vec<String> = Vec::new();
        values.push(value_string);
        assert(text::texts(values@) =~= seq![value_string@]);
        self.with_values(key_string, values)
    }

    /// The filter that lets the values pass too under `key`.
    pub fn with_filters<K, V>(self, key: K, values: Vec<V>) -> (filter: Self) where
        K: Into<String>,
        V: Into<String>,

        ensures
            adds_filters(self@, key, values@, filter@),
    {
        let key_string: String = key.into();
        assert(converts_to(key, key_string@));
        let ghost all = values@;
        let ghost mut taken: int = 0;
        let mut rest = values;
        let mut strings: Vec<String> = Vec::new();
        while rest.len() > 0
            invariant
                0 <= taken <= all.len(),
                rest@ == all.skip(taken),
                all_convert_to(all.take(taken), text::texts(strings@)),
            decreases rest@.len(),
        {
            let value = rest.remove(0);
            let ghost before = text::texts(strings@);
            let string: String = value.into();
            strings.push(string);
            proof {
                assert(text::texts(strings@) =~= before.push(string@));
                assert(converts_to(value, string@));
                assert(all.take(taken + 1) =~= all.take(taken).push(value));
                taken = taken + 1;
                assert(rest@ =~= all.skip(taken));
            }
        }
        assert(all.take(taken) =~= all);
        self.with_values(key_string, strings)
    }

    /// The filter with the values under the key.
    fn with_values(self, key: String, values: Vec<String>) -> (filter: Self)
        ensures
            filter@ == (FilterView {
                filters: extended(self@.filters, key@, text::texts(values@)),
                ..self@
            }),
    {
        let mut filters = self.filters;
        filters.append(key, values);
        let filter = DockerEventFilter { since: self.since, until: self.until, filters };
        proof {
            let before = string_map::listed(self.filters@, key@);
            assert(text::texts(before + values@) =~= text::texts(before) + text::texts(values@));
            assert(text::texts(Seq::<String>::empty()) =~= Seq::<Seq<char>>::empty());
            assert(filter@.filters =~= extended(self@.filters, key@, text::texts(values@)));
        }
        filter
    }

    /// The filter as the options of a request.
    pub fn into_options(self) -> (options: EventsOptions)
        ensures
            text::opt_text(options.since) == self@.since,
            text::opt_text(options.until) == self@.until,
            options.filters is None <==> self@.filters == Map::<
                Seq<char>,
                Seq<Seq<char>>,
            >::empty(),
            options.filters matches Some(set) ==> same_filters(set@, self@.filters),
    {
        proof {
            use_type_invariant(&self.filters);
            string_map::lemma_entries_map(self.filters.entries());
            if self.filters.entries().len() > 0 {
                assert(self@.filters.contains_key(self.filters.entries()[0].0));
            } else {
                assert(self@.filters =~= Map::empty());
            }
        }
        let mut builder = EventsOptionsBuilder::default();
        if let Some(since) = &self.since {
            builder = builder.since(since.as_str());
        }
        if let Some(until) = &self.until {
            builder = builder.until(until.as_str());
        }
        if !self.filters.is_empty() {
            builder = set_filters(builder, &self.filters);
        }
        builder.build()
    }
}

// ---------------------------------------------------------------------------------------------
// Laws
// ---------------------------------------------------------------------------------------------

/// Values that are added under one key in two steps are those of one step, in the same order.
pub proof fn law_filters_add_up(
    filters: Map<Seq<char>, Seq<Seq<char>>>,
    key: Seq<char>,
    first: Seq<Seq<char>>,
    second: Seq<Seq<char>>,
)
    ensures
        extended(extended(filters, key, first), key, second) == extended(
            filters,
            key,
            first + second,
        ),
{
    let before = if filters.contains_key(key) {
        filters[key]
    } else {
        Seq::empty()
    };
    assert((before + first) + second =~= before + (first + second));
    assert(extended(extended(filters, key, first), key, second) =~= extended(
        filters,
        key,
        first + second,
    ));
}

/// Values that are added under one key leave the other keys alone.
pub proof fn law_other_filters_stay(
    filters: Map<Seq<char>, Seq<Seq<char>>>,
    key: Seq<char>,
    values: Seq<Seq<char>>,
    other: Seq<char>,
)
    requires
        other != key,
    ensures
        extended(filters, key, values).contains_key(other) == filters.contains_key(other),
        filters.contains_key(other) ==> extended(filters, key, values)[other] == filters[other],
{
}

/// Whether `value` converts into one text.
pub open spec fn has_one_text<S: Into<String>>(value: S) -> bool {
    forall|a: Seq<char>, b: Seq<char>| #[trigger]
        converts_to(value, a) && #[trigger] converts_to(value, b) ==> a == b
}

/// Whether each of `steps` follows from the one before it by one value that is added under the
/// key: the first is `before`, and the values are added in their order.
pub open spec fn adds_one_by_one<K: Into<String>, V: Into<String>>(
    before: FilterView,
    key: K,
    values: Seq<V>,
    steps: Seq<FilterView>,
) -> bool {
    &&& steps.len() == values.len() + 1
    &&& steps[0] == before
    &&& forall|i: int|
        0 <= i < values.len() ==> adds_filter(
            steps[i],
            key,
            #[trigger] values[i],
            steps[i + 1],
        )
}

/// To add values at once is to add them one by one, where the key and the values convert into one
/// text each. To add no value leaves the filter, with an empty list under a key that it did not
/// have.
pub proof fn law_filters_at_once_are_filters_one_by_one<K: Into<String>, V: Into<String>>(
    before: FilterView,
    key: K,
    values: Seq<V>,
    steps: Seq<FilterView>,
    after: FilterView,
)
    requires
        has_one_text(key),
        forall|i: int| 0 <= i < values.len() ==> has_one_text(#[trigger] values[i]),
        adds_one_by_one(before, key, values, steps),
        adds_filters(before, key, values, after),
    ensures
        values.len() > 0 ==> after == steps.last(),
        values.len() == 0 ==> exists|key_text: Seq<char>| #[trigger]
            converts_to(key, key_text) && after == (FilterView {
                filters: before.filters.insert(
                    key_text,
                    if before.filters.contains_key(key_text) {
                        before.filters[key_text]
                    } else {
                        Seq::empty()
                    },
                ),
                ..before
            }),
{
    let (key_text, texts) = choose|key_text: Seq<char>, value_texts: Seq<Seq<char>>| #[trigger]
        converts_to(key, key_text) && #[trigger] all_convert_to(values, value_texts) && after == (
        FilterView {
            filters: extended(before.filters, key_text, value_texts),
            ..before
        });
    let listed = if before.filters.contains_key(key_text) {
        before.filters[key_text]
    } else {
        Seq::empty()
    };
    if values.len() == 0 {
        assert(listed + texts =~= listed);
    } else {
        lemma_one_by_one(before, key, values, steps, key_text, texts, values.len() as int);
        assert(texts.take(values.len() as int) =~= texts);
    }
}

proof fn lemma_one_by_one<K: Into<String>, V: Into<String>>(
    before: FilterView,
    key: K,
    values: Seq<V>,
    steps: Seq<FilterView>,
    key_text: Seq<char>,
    texts: Seq<Seq<char>>,
    n: int,
)
    requires
        has_one_text(key),
        forall|i: int| 0 <= i < values.len() ==> has_one_text(#[trigger] values[i]),
        adds_one_by_one(before, key, values, steps),
        converts_to(key, key_text),
        all_convert_to(values, texts),
        1 <= n <= values.len(),
    ensures
        steps[n] == (FilterView {
            filters: extended(before.filters, key_text, texts.take(n)),
            ..before
        }),
    decreases n,
{
    let last = n - 1;
    assert(has_one_text(values[last]));
    assert(adds_filter(steps[last], key, values[last], steps[last + 1]));
    assert(converts_to(values[last], texts[last]));
    assert(steps[n] == (FilterView {
        filters: extended(steps[last].filters, key_text, seq![texts[last]]),
        ..steps[last]
    }));
    if n == 1 {
        assert(texts.take(1) =~= seq![texts[0]]);
    } else {
        lemma_one_by_one(before, key, values, steps, key_text, texts, last);
        law_filters_add_up(before.filters, key_text, texts.take(last), seq![texts[last]]);
        assert(texts.take(last) + seq![texts[last]] =~= texts.take(n));
    }
}

/// Strings and slices of strings convert into one text: their own.
pub proof fn law_texts_have_one_text(string: String, slice: &str)
    ensures
        has_one_text(string),
        has_one_text(slice),
        forall|text: Seq<char>| #[trigger] converts_to(string, text) ==> text == string@,
        forall|text: Seq<char>| #[trigger] converts_to(slice, text) ==> text == slice@,
{
}

/// Values are added at the end of the list under their key, all of them and in their order; the
/// span of time stays.
pub proof fn law_values_are_added_at_the_end<K: Into<String>, V: Into<String>>(
    before: FilterView,
    key: K,
    values: Seq<V>,
    after: FilterView,
    key_text: Seq<char>,
    texts: Seq<Seq<char>>,
)
    requires
        adds_filters(before, key, values, after),
        has_one_text(key),
        forall|i: int| 0 <= i < values.len() ==> has_one_text(#[trigger] values[i]),
        converts_to(key, key_text),
        texts.len() == values.len(),
        forall|i: int| 0 <= i < values.len() ==> converts_to(values[i], #[trigger] texts[i]),
    ensures
        after.since == before.since,
        after.until == before.until,
        after.filters.contains_key(key_text),
        before.filters.contains_key(key_text) ==> after.filters[key_text]
            == before.filters[key_text] + texts,
        !before.filters.contains_key(key_text) ==> after.filters[key_text] == texts,
        forall|other: Seq<char>|
            other != key_text ==> (#[trigger] after.filters.contains_key(other))
                == before.filters.contains_key(other),
        forall|other: Seq<char>|
            other != key_text && #[trigger] before.filters.contains_key(other)
                ==> after.filters[other] == before.filters[other],
{
    let (found_key, found) = choose|found_key: Seq<char>, found: Seq<Seq<char>>| #[trigger]
        converts_to(key, found_key) && #[trigger] all_convert_to(values, found) && after == (
        FilterView {
            filters: extended(before.filters, found_key, found),
            ..before
        });
    assert(found_key == key_text);
    assert forall|i: int| 0 <= i < texts.len() implies found[i] == texts[i] by {
        assert(has_one_text(values[i]));
        assert(converts_to(values[i], found[i]));
        assert(converts_to(values[i], texts[i]));
    }
    assert(found =~= texts);
    assert(Seq::<Seq<char>>::empty() + texts =~= texts);
}

/// One value that is added is what a list of one value is.
pub proof fn law_one_value_is_a_list_of_one<K: Into<String>, V: Into<String>>(
    before: FilterView,
    key: K,
    value: V,
    after: FilterView,
)
    requires
        adds_filter(before, key, value, after),
    ensures
        adds_filters(before, key, seq![value], after),
{
    let (key_text, value_text) = choose|key_text: Seq<char>, value_text: Seq<char>| #[trigger]
        converts_to(key, key_text) && #[trigger] converts_to(value, value_text) && after == (
        FilterView {
            filters: extended(before.filters, key_text, seq![value_text]),
            ..before
        });
    let texts = seq![value_text];
    assert(all_convert_to(seq![value], texts));
    assert(converts_to(key, key_text));
}

/// The options of a request hold exactly the keys of the filter, each with its texts in their
/// order.
pub proof fn law_options_hold_the_filters(
    map: Map<String, Vec<String>>,
    filters: Map<Seq<char>, Seq<Seq<char>>>,
    key: String,
)
    requires
        same_filters(map, filters),
    ensures
        map.contains_key(key) <==> filters.contains_key(key@),
        map.contains_key(key) ==> map[key]@.len() == filters[key@].len(),
        map.contains_key(key) ==> forall|i: int|
            0 <= i < map[key]@.len() ==> (#[trigger] map[key]@[i])@ == filters[key@][i],
{
    if map.contains_key(key) {
        assert(text::texts(map[key]@) == filters[key@]);
        assert(text::texts(map[key]@).len() == map[key]@.len());
        assert forall|i: int| 0 <= i < map[key]@.len() implies (#[trigger] map[key]@[i])@
            == filters[key@][i] by {
            assert(text::texts(map[key]@)[i] == map[key]@[i]@);
        }
    }
}

} // verus!
