//! The labels of a container, as the Prometheus text format writes them.
use vstd::prelude::*;

use crate::docker_events::identity::ContainerIdentity;
use crate::order;
use crate::string_map;
use crate::text;

verus! {

// ---------------------------------------------------------------------------------------------
// One label
// ---------------------------------------------------------------------------------------------

/// How a character of a label value is written between the quotes.
pub open spec fn escaped_char(character: char) -> Seq<char> {
    if character == '\\' {
        seq!['\\', '\\']
    } else if character == '\n' {
        seq!['\\', 'n']
    } else if character == '"' {
        seq!['\\', '"']
    } else {
        seq![character]
    }
}

/// How a label value is written between the quotes.
pub open spec fn escaped(value: Seq<char>) -> Seq<char>
    decreases value.len(),
{
    if value.len() == 0 {
        Seq::empty()
    } else {
        escaped(value.drop_last()) + escaped_char(value.last())
    }
}

/// Whether a label name may hold the character.
pub open spec fn is_name_char(character: char) -> bool {
    ||| 'a' <= character && character <= 'z'
    ||| 'A' <= character && character <= 'Z'
    ||| '0' <= character && character <= '9'
    ||| character == '_'
}

/// The text, with an underscore for each character that a label name may not hold.
pub open spec fn label_name(value: Seq<char>) -> Seq<char> {
    value.map_values(
        |character: char|
            if is_name_char(character) {
                character
            } else {
                '_'
            },
    )
}

/// `name="value"`, the value escaped.
pub open spec fn label(name: Seq<char>, value: Seq<char>) -> Seq<char> {
    name + seq!['=', '"'] + escaped(value) + seq!['"']
}

/// Escapes a label value.
pub fn escape_prometheus_label_value(value: &str) -> (result: String)
    ensures
        result@ == escaped(value@),
{
    let chars = text::to_chars(value);
    let mut result = String::new();
    let mut i: usize = 0;
    assert(result@ =~= escaped(chars@.take(0)));
    while i < chars.len()
        invariant
            i <= chars@.len(),
            result@ == escaped(chars@.take(i as int)),
        decreases chars@.len() - i,
    {
        let character = chars[i];
        assert(chars@.take(i + 1).drop_last() =~= chars@.take(i as int));
        let ghost before = result@;
        if character == '\\' {
            result.push('\\');
            result.push('\\');
        } else if character == '\n' {
            result.push('\\');
            result.push('n');
        } else if character == '"' {
            result.push('\\');
            result.push('"');
        } else {
            result.push(character);
        }
        assert(result@ =~= before + escaped_char(character));
        i += 1;
    }
    assert(chars@.take(i as int) =~= chars@);
    result
}

/// Makes a label name of a text.
pub fn prometheus_label_name(value: &str) -> (name: String)
    ensures
        name@ == label_name(value@),
{
    let chars = text::to_chars(value);
    let mut name = String::new();
    let mut i: usize = 0;
    while i < chars.len()
        invariant
            i <= chars@.len(),
            chars@ == value@,
            name@ == label_name(value@).take(i as int),
        decreases chars@.len() - i,
    {
        let character = chars[i];
        let allowed = ('a' <= character && character <= 'z') || ('A' <= character && character
            <= 'Z') || ('0' <= character && character <= '9') || character == '_';
        if allowed {
            name.push(character);
        } else {
            name.push('_');
        }
        i += 1;
        assert(name@ =~= label_name(value@).take(i as int));
    }
    assert(label_name(value@).take(i as int) =~= label_name(value@));
    name
}

/// Writes one label.
pub fn prometheus_label(name: &str, value: &str) -> (result: String)
    ensures
        result@ == label(name@, value@),
{
    let mut result = name.to_string();
    result.push('=');
    result.push('"');
    result.append(escape_prometheus_label_value(value).as_str());
    result.push('"');
    assert(result@ =~= label(name@, value@));
    result
}

// ---------------------------------------------------------------------------------------------
// All labels of a container
// ---------------------------------------------------------------------------------------------

/// The texts with a separator between them.
pub open spec fn joined(parts: Seq<Seq<char>>, separator: char) -> Seq<char>
    decreases parts.len(),
{
    if parts.len() == 0 {
        Seq::empty()
    } else if parts.len() == 1 {
        parts[0]
    } else {
        joined(parts.drop_last(), separator).push(separator) + parts.last()
    }
}

/// The Docker labels, as the names and values of Prometheus labels.
pub open spec fn docker_labels(entries: string_map::Entries<String>) -> Seq<Seq<char>> {
    entries.map_values(
        |entry: (Seq<char>, String)| label("container_label_"@ + label_name(entry.0), entry.1@),
    )
}

/// The labels of a container: its name, its image and its Docker labels.
pub open spec fn label_list(container: ContainerIdentity) -> Seq<Seq<char>> {
    seq![
        label("name"@, container.name@),
        label(
            "image"@,
            match container.image {
                Some(image) => image@,
                None => Seq::empty(),
            },
        ),
    ] + docker_labels(container.labels.entries())
}

/// The labels of a container in order, with commas between them.
pub open spec fn container_labels(container: ContainerIdentity) -> Seq<char> {
    joined(label_list(container).sort_by(order::text_order()), ',')
}

/// Joins texts.
fn join(parts: &Vec<String>, separator: char) -> (result: String)
    ensures
        result@ == joined(text::texts(parts@), separator),
{
    let ghost all = text::texts(parts@);
    let mut result = String::new();
    let mut i: usize = 0;
    assert(result@ =~= joined(all.take(0), separator));
    while i < parts.len()
        invariant
            i <= parts@.len(),
            all == text::texts(parts@),
            result@ == joined(all.take(i as int), separator),
        decreases parts@.len() - i,
    {
        assert(all.take(i + 1).drop_last() =~= all.take(i as int));
        assert(all.take(i + 1).last() == parts@[i as int]@);
        if i > 0 {
            result.push(separator);
        }
        result.append(parts[i].as_str());
        i += 1;
        assert(result@ =~= joined(all.take(i as int), separator));
    }
    assert(all.take(i as int) =~= all);
    result
}

/// Writes the labels of a container.
pub fn prometheus_container_labels(container: &ContainerIdentity) -> (result: String)
    ensures
        result@ == container_labels(*container),
{
    let mut list: Vec<String> = Vec::new();
    list.push(prometheus_label("name", container.name.as_str()));
    let image = match &container.image {
        Some(image) => prometheus_label("image", image.as_str()),
        None => {
            proof {
                reveal_strlit("");
            }
            assert(""@ =~= Seq::<char>::empty());
            prometheus_label("image", "")
        },
    };
    list.push(image);
    let ghost expected = label_list(*container);
    let mut i: usize = 0;
    while i < container.labels.len()
        invariant
            i <= container.labels.entries().len(),
            expected == label_list(*container),
            text::texts(list@) == expected.take(i + 2),
        decreases container.labels.entries().len() - i,
    {
        let mut name = "container_label_".to_string();
        name.append(prometheus_label_name(container.labels.key_at(i).as_str()).as_str());
        let ghost before = text::texts(list@);
        let next = prometheus_label(name.as_str(), container.labels.value_at(i).as_str());
        list.push(next);
        assert(text::texts(list@) =~= before.push(next@));
        assert(next@ == docker_labels(container.labels.entries())[i as int]);
        assert(expected[i + 2] == docker_labels(container.labels.entries())[i as int]);
        assert(expected.take(i + 3) =~= expected.take(i + 2).push(expected[i + 2]));
        i += 1;
    }
    assert(expected.take(i + 2) =~= expected);
    let sorted = order::sort_texts(list);
    join(&sorted, ',')
}

// ---------------------------------------------------------------------------------------------
// Laws
// ---------------------------------------------------------------------------------------------

/// The label value that `text` writes up to the closing quote, and what stands behind the quote.
pub open spec fn read_quoted(text: Seq<char>) -> Option<(Seq<char>, Seq<char>)>
    decreases text.len(),
{
    if text.len() == 0 {
        None
    } else if text[0] == '"' {
        Some((Seq::empty(), text.skip(1)))
    } else if text[0] == '\\' {
        if text.len() < 2 {
            None
        } else {
            match read_quoted(text.skip(2)) {
                Some((value, rest)) => if text[1] == '\\' {
                    Some((seq!['\\'] + value, rest))
                } else if text[1] == 'n' {
                    Some((seq!['\n'] + value, rest))
                } else if text[1] == '"' {
                    Some((seq!['"'] + value, rest))
                } else {
                    None
                },
                None => None,
            }
        }
    } else {
        match read_quoted(text.skip(1)) {
            Some((value, rest)) => Some((seq![text[0]] + value, rest)),
            None => None,
        }
    }
}

/// The escaped text begins with the escaped first character.
proof fn lemma_escaped_first(value: Seq<char>)
    requires
        value.len() > 0,
    ensures
        escaped(value) == escaped_char(value[0]) + escaped(value.skip(1)),
    decreases value.len(),
{
    if value.len() == 1 {
        assert(value.drop_last() =~= Seq::<char>::empty());
        assert(value.skip(1) =~= Seq::<char>::empty());
        assert(escaped(value) =~= escaped_char(value[0]) + escaped(value.skip(1)));
    } else {
        lemma_escaped_first(value.drop_last());
        assert(value.drop_last().skip(1) =~= value.skip(1).drop_last());
        assert(escaped(value) =~= escaped_char(value[0]) + escaped(value.skip(1)));
    }
}

/// A label value that was written is read back, whatever stands behind it.
pub proof fn law_label_value_reads_back(value: Seq<char>, rest: Seq<char>)
    ensures
        read_quoted(escaped(value) + seq!['"'] + rest) == Some((value, rest)),
    decreases value.len(),
{
    let text = escaped(value) + seq!['"'] + rest;
    if value.len() == 0 {
        assert(text[0] == '"');
        assert(text.skip(1) =~= rest);
        assert(value =~= Seq::empty());
    } else {
        lemma_escaped_first(value);
        law_label_value_reads_back(value.skip(1), rest);
        let tail = escaped(value.skip(1)) + seq!['"'] + rest;
        assert(text =~= escaped_char(value[0]) + tail);
        assert(text.skip(escaped_char(value[0]).len() as int) =~= tail);
        assert(value =~= seq![value[0]] + value.skip(1));
    }
}

/// An escaped label value has no line break.
pub proof fn law_escaped_value_is_one_line(value: Seq<char>)
    ensures
        !escaped(value).contains('\n'),
    decreases value.len(),
{
    if value.len() > 0 {
        law_escaped_value_is_one_line(value.drop_last());
        assert forall|i: int| 0 <= i < escaped(value).len() implies escaped(value)[i] != '\n' by {
            let before = escaped(value.drop_last());
            if i < before.len() {
                assert(before.contains(before[i]));
            }
        }
    }
}

/// A label name that is made of a text is as long, holds only letters, digits and underscores, and
/// keeps those that the text has; it has an underscore for each dot.
pub proof fn law_label_names_are_valid(value: Seq<char>, i: int)
    requires
        0 <= i < value.len(),
    ensures
        label_name(value).len() == value.len(),
        is_name_char(label_name(value)[i]),
        is_name_char(value[i]) ==> label_name(value)[i] == value[i],
        value[i] == '.' ==> label_name(value)[i] == '_',
{
}

/// The labels of a container hold its name and its image.
pub proof fn law_labels_hold_name_and_image(container: ContainerIdentity)
    ensures
        label_list(container).sort_by(order::text_order()).contains(
            label("name"@, container.name@),
        ),
        container.image matches Some(image) ==> label_list(container).sort_by(
            order::text_order(),
        ).contains(label("image"@, image@)),
        container.image is None ==> label_list(container).sort_by(order::text_order()).contains(
            label("image"@, Seq::empty()),
        ),
{
    broadcast use vstd::seq_lib::group_to_multiset_ensures;

    let list = label_list(container);
    let sorted = list.sort_by(order::text_order());
    order::law_text_order_is_total();
    list.lemma_sort_by_ensures(order::text_order());
    assert forall|i: int| 0 <= i < list.len() implies sorted.contains(#[trigger] list[i]) by {
        assert(list.contains(list[i]));
        assert(list.to_multiset().count(list[i]) > 0);
        assert(sorted.to_multiset().count(list[i]) > 0);
    }
    assert(sorted.contains(list[0]));
    assert(sorted.contains(list[1]));
}

/// The labels of a container hold each of its Docker labels.
pub proof fn law_labels_hold_docker_labels(container: ContainerIdentity, i: int)
    requires
        0 <= i < container.labels.entries().len(),
    ensures
        label_list(container).sort_by(order::text_order()).contains(
            label(
                "container_label_"@ + label_name(container.labels.entries()[i].0),
                container.labels.entries()[i].1@,
            ),
        ),
{
    broadcast use vstd::seq_lib::group_to_multiset_ensures;

    let list = label_list(container);
    let sorted = list.sort_by(order::text_order());
    order::law_text_order_is_total();
    list.lemma_sort_by_ensures(order::text_order());
    let wanted = list[i + 2];
    assert(list.contains(wanted));
    assert(list.to_multiset().count(wanted) > 0);
    assert(sorted.to_multiset().count(wanted) > 0);
}

/// A label is one line if its name is.
proof fn lemma_label_is_one_line(name: Seq<char>, value: Seq<char>)
    requires
        !name.contains('\n'),
    ensures
        !label(name, value).contains('\n'),
{
    law_escaped_value_is_one_line(value);
    let whole = label(name, value);
    let middle = escaped(value);
    assert forall|i: int| 0 <= i < whole.len() implies whole[i] != '\n' by {
        if i < name.len() {
            assert(name.contains(name[i]));
        } else if name.len() + 2 <= i < name.len() + 2 + middle.len() {
            assert(whole[i] == middle[i - name.len() - 2]);
            assert(middle.contains(middle[i - name.len() - 2]));
        }
    }
}

proof fn lemma_joined_is_one_line(parts: Seq<Seq<char>>, separator: char)
    requires
        separator != '\n',
        forall|i: int| 0 <= i < parts.len() ==> !(#[trigger] parts[i]).contains('\n'),
    ensures
        !joined(parts, separator).contains('\n'),
    decreases parts.len(),
{
    if parts.len() > 1 {
        lemma_joined_is_one_line(parts.drop_last(), separator);
        let before = joined(parts.drop_last(), separator);
        let last = parts.last();
        let whole = joined(parts, separator);
        assert forall|i: int| 0 <= i < whole.len() implies whole[i] != '\n' by {
            if i < before.len() {
                assert(before.contains(before[i]));
            } else if i > before.len() {
                assert(last.contains(last[i - before.len() - 1]));
            }
        }
    }
}

/// The labels of a container are one line, whatever texts it has.
pub proof fn law_container_labels_are_one_line(container: ContainerIdentity)
    ensures
        !container_labels(container).contains('\n'),
{
    let list = label_list(container);
    let sorted = list.sort_by(order::text_order());
    reveal_strlit("name");
    reveal_strlit("image");
    reveal_strlit("container_label_");
    order::law_text_order_is_total();
    list.lemma_sort_by_ensures(order::text_order());
    assert forall|i: int| 0 <= i < list.len() implies !(#[trigger] list[i]).contains('\n') by {
        if i == 0 {
            lemma_label_is_one_line("name"@, container.name@);
        } else if i == 1 {
            lemma_label_is_one_line(
                "image"@,
                match container.image {
                    Some(image) => image@,
                    None => Seq::empty(),
                },
            );
        } else {
            let entry = container.labels.entries()[i - 2];
            let name = "container_label_"@ + label_name(entry.0);
            assert forall|j: int| 0 <= j < name.len() implies name[j] != '\n' by {
                if j >= "container_label_"@.len() {
                    law_label_names_are_valid(entry.0, j - "container_label_"@.len());
                }
            }
            lemma_label_is_one_line(name, entry.1@);
            assert(list[i] == label(name, entry.1@));
        }
    }
    assert forall|i: int| 0 <= i < sorted.len() implies !(#[trigger] sorted[i]).contains('\n') by {
        assert(sorted.contains(sorted[i]));
        assert(list.contains(sorted[i]));
    }
    lemma_joined_is_one_line(sorted, ',');
}

/// The name and the value of the label that `text` begins with, and what stands behind it.
pub open spec fn read_label(text: Seq<char>) -> Option<((Seq<char>, Seq<char>), Seq<char>)> {
    match text.index_of_first('=') {
        Some(end) => if end + 1 < text.len() && text[end + 1] == '"' {
            match read_quoted(text.skip(end + 2)) {
                Some((value, rest)) => Some(((text.take(end), value), rest)),
                None => None,
            }
        } else {
            None
        },
        None => None,
    }
}

/// The names and values of the labels that `text` holds, with commas between them.
pub open spec fn read_labels(text: Seq<char>) -> Option<Seq<(Seq<char>, Seq<char>)>>
    decreases text.len(),
{
    match read_label(text) {
        Some((pair, rest)) => if rest.len() == 0 {
            Some(seq![pair])
        } else if rest[0] == ',' && rest.len() < text.len() {
            match read_labels(rest.skip(1)) {
                Some(pairs) => Some(seq![pair] + pairs),
                None => None,
            }
        } else {
            None
        },
        None => None,
    }
}

/// The pairs as labels.
pub open spec fn written_labels(pairs: Seq<(Seq<char>, Seq<char>)>) -> Seq<Seq<char>> {
    pairs.map_values(|pair: (Seq<char>, Seq<char>)| label(pair.0, pair.1))
}

/// A label is read back, whatever stands behind it.
proof fn lemma_label_reads_back(name: Seq<char>, value: Seq<char>, rest: Seq<char>)
    requires
        !name.contains('='),
    ensures
        read_label(label(name, value) + rest) == Some(((name, value), rest)),
{
    let text = label(name, value) + rest;
    let end = name.len() as int;
    assert forall|i: int| 0 <= i < end implies text[i] != '=' by {
        assert(text[i] == name[i]);
        assert(name.contains(name[i]));
    }
    text.index_of_first_ensures('=');
    assert(text[end] == '=' && text[end + 1] == '"');
    assert(text.contains(text[end]));
    assert(text.take(end) =~= name);
    assert(text.skip(end + 2) =~= escaped(value) + seq!['"'] + rest);
    law_label_value_reads_back(value, rest);
}

/// Joined texts begin with the first of them.
proof fn lemma_joined_first(parts: Seq<Seq<char>>, separator: char)
    requires
        parts.len() > 1,
    ensures
        joined(parts, separator) == parts[0] + (seq![separator] + joined(parts.skip(1), separator)),
    decreases parts.len(),
{
    if parts.len() == 2 {
        assert(joined(parts.drop_last(), separator) == parts[0]);
        assert(joined(parts.skip(1), separator) == parts[1]);
        assert(joined(parts, separator) =~= parts[0] + (seq![separator] + joined(
            parts.skip(1),
            separator,
        )));
    } else {
        lemma_joined_first(parts.drop_last(), separator);
        assert(parts.drop_last().skip(1) =~= parts.skip(1).drop_last());
        assert(joined(parts, separator) =~= parts[0] + (seq![separator] + joined(
            parts.skip(1),
            separator,
        )));
    }
}

proof fn lemma_labels_read_back(pairs: Seq<(Seq<char>, Seq<char>)>)
    requires
        pairs.len() > 0,
        forall|i: int| 0 <= i < pairs.len() ==> !(#[trigger] pairs[i]).0.contains('='),
    ensures
        read_labels(joined(written_labels(pairs), ',')) == Some(pairs),
    decreases pairs.len(),
{
    let parts = written_labels(pairs);
    let text = joined(parts, ',');
    let first = pairs[0];
    assert(parts[0] == label(first.0, first.1));
    if pairs.len() == 1 {
        lemma_label_reads_back(first.0, first.1, Seq::empty());
        assert(text + Seq::<char>::empty() =~= text);
        assert(pairs =~= seq![first]);
    } else {
        let others = pairs.skip(1);
        assert(written_labels(others) =~= parts.skip(1));
        assert forall|i: int| 0 <= i < others.len() implies !(#[trigger] others[i]).0.contains(
            '=',
        ) by {
            assert(others[i] == pairs[i + 1]);
        }
        lemma_joined_first(parts, ',');
        let rest = seq![','] + joined(parts.skip(1), ',');
        lemma_label_reads_back(first.0, first.1, rest);
        assert(rest.skip(1) =~= joined(parts.skip(1), ','));
        lemma_labels_read_back(others);
        assert(pairs =~= seq![first] + others);
    }
}

/// The name and the value of each label of a container.
pub open spec fn label_pairs(container: ContainerIdentity) -> Seq<(Seq<char>, Seq<char>)> {
    seq![
        ("name"@, container.name@),
        (
            "image"@,
            match container.image {
                Some(image) => image@,
                None => Seq::empty(),
            },
        ),
    ] + container.labels.entries().map_values(
        |entry: (Seq<char>, String)| ("container_label_"@ + label_name(entry.0), entry.1@),
    )
}

/// The labels of a container are read back: they are its name, its image and its Docker labels,
/// each with the value that it has, whatever characters this holds.
pub proof fn law_container_labels_read_back(container: ContainerIdentity)
    ensures
        read_labels(container_labels(container)) matches Some(pairs) && pairs.to_multiset()
            == label_pairs(container).to_multiset(),
{
    reveal_strlit("name");
    reveal_strlit("image");
    reveal_strlit("container_label_");
    let all = label_pairs(container);
    let list = label_list(container);
    assert(written_labels(all) =~= list);
    assert forall|i: int| 0 <= i < all.len() implies !(#[trigger] all[i]).0.contains('=') by {
        if i >= 2 {
            let key = container.labels.entries()[i - 2].0;
            let name = "container_label_"@ + label_name(key);
            assert(all[i].0 == name);
            assert forall|j: int| 0 <= j < name.len() implies name[j] != '=' by {
                if j >= "container_label_"@.len() {
                    law_label_names_are_valid(key, j - "container_label_"@.len());
                }
            }
        }
    }
    let sorted = list.sort_by(order::text_order());
    order::law_text_order_is_total();
    list.lemma_sort_by_ensures(order::text_order());
    let pairs = order::lemma_rearranged_origin(
        all,
        |pair: (Seq<char>, Seq<char>)| label(pair.0, pair.1),
        sorted,
    );
    assert(written_labels(pairs) =~= sorted);
    assert forall|i: int| 0 <= i < pairs.len() implies !(#[trigger] pairs[i]).0.contains('=') by {
        assert(pairs.contains(pairs[i]));
        order::lemma_same_multiset_contains(pairs, all, pairs[i]);
        let j = choose|j: int| 0 <= j < all.len() && all[j] == pairs[i];
        assert(!all[j].0.contains('='));
    }
    assert(pairs.len() > 0) by {
        broadcast use vstd::seq_lib::group_to_multiset_ensures;

        assert(pairs.to_multiset().len() == pairs.len());
        assert(all.to_multiset().len() == all.len());
    }
    lemma_labels_read_back(pairs);
}

/// The labels depend on what a container is called and labelled alone, not on the order in which
/// its labels are walked.
pub proof fn law_labels_do_not_depend_on_the_walk(left: ContainerIdentity, right: ContainerIdentity)
    requires
        left.labels.wf(),
        right.labels.wf(),
        left@ == right@,
    ensures
        container_labels(left) == container_labels(right),
{
    let text_of = |value: String| value@;
    let write = |entry: (Seq<char>, Seq<char>)|
        label("container_label_"@ + label_name(entry.0), entry.1);
    let left_entries = string_map::mapped_entries(left.labels.entries(), text_of);
    let right_entries = string_map::mapped_entries(right.labels.entries(), text_of);
    string_map::lemma_mapped_entries(left.labels.entries(), text_of);
    string_map::lemma_mapped_entries(right.labels.entries(), text_of);
    assert(left@.labels == right@.labels);
    assert(left@.labels =~= left.labels@.map_values(text_of));
    assert(right@.labels =~= right.labels@.map_values(text_of));
    string_map::lemma_same_map_same_entries(left_entries, right_entries);
    order::lemma_mapped_multiset(left_entries, right_entries, write);
    assert(left_entries.map_values(write) =~= docker_labels(left.labels.entries()));
    assert(right_entries.map_values(write) =~= docker_labels(right.labels.entries()));
    assert(text::opt_text(left.image) == text::opt_text(right.image));
    let fixed = label_list(left).take(2);
    assert(label_list(left) =~= fixed + docker_labels(left.labels.entries()));
    assert(label_list(right) =~= fixed + docker_labels(right.labels.entries()));
    vstd::seq_lib::lemma_multiset_commutative(fixed, docker_labels(left.labels.entries()));
    vstd::seq_lib::lemma_multiset_commutative(fixed, docker_labels(right.labels.entries()));
    order::law_text_order_is_total();
    label_list(left).lemma_sort_by_ensures(order::text_order());
    label_list(right).lemma_sort_by_ensures(order::text_order());
    vstd::seq_lib::lemma_sorted_unique(
        label_list(left).sort_by(order::text_order()),
        label_list(right).sort_by(order::text_order()),
        order::text_order(),
    );
}

/// A label value is escaped character by character: a backslash, a line break and a quote by a
/// backslash and a character that stands for them, every other character by itself.
pub proof fn law_values_are_escaped_by_character(
    first: Seq<char>,
    second: Seq<char>,
    character: char,
)
    ensures
        escaped(Seq::empty()).len() == 0,
        escaped(first + second) == escaped(first) + escaped(second),
        escaped(seq!['\\']) == seq!['\\', '\\'],
        escaped(seq!['\n']) == seq!['\\', 'n'],
        escaped(seq!['"']) == seq!['\\', '"'],
        character != '\\' && character != '\n' && character != '"' ==> escaped(seq![character])
            == seq![character],
    decreases second.len(),
{
    assert(seq!['\\'].drop_last() =~= Seq::<char>::empty());
    assert(seq!['\n'].drop_last() =~= Seq::<char>::empty());
    assert(seq!['"'].drop_last() =~= Seq::<char>::empty());
    assert(seq![character].drop_last() =~= Seq::<char>::empty());
    assert(escaped(Seq::<char>::empty()) =~= Seq::<char>::empty());
    assert(escaped(seq!['\\']) =~= seq!['\\', '\\']);
    assert(escaped(seq!['\n']) =~= seq!['\\', 'n']);
    assert(escaped(seq!['"']) =~= seq!['\\', '"']);
    if character != '\\' && character != '\n' && character != '"' {
        assert(escaped(seq![character]) =~= seq![character]);
    }
    if second.len() == 0 {
        assert(first + second =~= first);
        assert(escaped(first) + escaped(second) =~= escaped(first));
    } else {
        law_values_are_escaped_by_character(first, second.drop_last(), character);
        assert((first + second).drop_last() =~= first + second.drop_last());
        assert(escaped(first + second) =~= escaped(first) + escaped(second));
    }
}

/// A label is its name, an equals sign, and the escaped value in quotes.
pub proof fn law_label_is_name_and_quoted_value(name: Seq<char>, value: Seq<char>)
    ensures
        label(name, value).take(name.len() as int) == name,
        label(name, value).len() == name.len() + escaped(value).len() + 3,
        label(name, value)[name.len() as int] == '=',
        label(name, value)[name.len() as int + 1] == '"',
        label(name, value).last() == '"',
        label(name, value).skip(name.len() as int + 2).drop_last() == escaped(value),
{
    assert(label(name, value).take(name.len() as int) =~= name);
    assert(label(name, value).skip(name.len() as int + 2).drop_last() =~= escaped(value));
}

/// A label name keeps the letters, the digits and the underscores of ASCII, and has an underscore
/// for everything else.
pub proof fn law_label_name_by_character(value: Seq<char>, i: int)
    requires
        0 <= i < value.len(),
    ensures
        label_name(value).len() == value.len(),
        'a' <= value[i] && value[i] <= 'z' || 'A' <= value[i] && value[i] <= 'Z' || '0' <= value[i]
            && value[i] <= '9' ==> label_name(value)[i] == value[i],
        !('a' <= value[i] && value[i] <= 'z') && !('A' <= value[i] && value[i] <= 'Z') && !('0'
            <= value[i] && value[i] <= '9') ==> label_name(value)[i] == '_',
{
}

/// Texts are joined one behind the other, with one separator between any two.
pub proof fn law_texts_are_joined_one_by_one(
    parts: Seq<Seq<char>>,
    part: Seq<char>,
    separator: char,
)
    ensures
        joined(Seq::empty(), separator).len() == 0,
        joined(seq![part], separator) == part,
        parts.len() > 0 ==> joined(parts.push(part), separator) == joined(parts, separator) + seq![
            separator,
        ] + part,
{
    assert(parts.push(part).drop_last() =~= parts);
    if parts.len() > 0 {
        assert(joined(parts.push(part), separator) =~= joined(parts, separator) + seq![separator]
            + part);
    }
}

/// The labels of a container are texts in the order of texts with commas between them: one for the
/// name, one for the image and one for each Docker label.
pub proof fn law_container_labels_are_in_order(container: ContainerIdentity) -> (list: Seq<
    Seq<char>,
>)
    ensures
        container_labels(container) == joined(list, ','),
        list.len() == container.labels.entries().len() + 2,
        forall|i: int, j: int|
            0 <= i < j < list.len() ==> order::text_le(#[trigger] list[i], #[trigger] list[j]),
        list.contains(label("name"@, container.name@)),
        container.image matches Some(image) ==> list.contains(label("image"@, image@)),
        container.image is None ==> list.contains(label("image"@, Seq::empty())),
        forall|i: int|
            0 <= i < container.labels.entries().len() ==> list.contains(
                label(
                    "container_label_"@ + label_name((#[trigger] container.labels.entries()[i]).0),
                    container.labels.entries()[i].1@,
                ),
            ),
{
    broadcast use vstd::seq_lib::group_to_multiset_ensures;

    let given = label_list(container);
    let list = given.sort_by(order::text_order());
    order::law_text_order_is_total();
    given.lemma_sort_by_ensures(order::text_order());
    assert(list.to_multiset().len() == list.len());
    assert(given.to_multiset().len() == given.len());
    law_labels_hold_name_and_image(container);
    assert forall|i: int| 0 <= i < container.labels.entries().len() implies list.contains(
        label(
            "container_label_"@ + label_name((#[trigger] container.labels.entries()[i]).0),
            container.labels.entries()[i].1@,
        ),
    ) by {
        law_labels_hold_docker_labels(container, i);
    }
    assert forall|i: int, j: int| 0 <= i < j < list.len() implies order::text_le(
        #[trigger] list[i],
        #[trigger] list[j],
    ) by {
        assert(order::text_order()(list[i], list[j]));
    }
    list
}

} // verus!
