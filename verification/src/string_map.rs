//! A map from texts to values.
use vstd::prelude::*;

verus! {

/// The keys and values of a map, in some order.
pub type Entries<V> = Seq<(Seq<char>, V)>;

/// Whether no key occurs twice.
pub open spec fn distinct_keys<V>(entries: Entries<V>) -> bool {
    forall|i: int, j: int| 0 <= i < j < entries.len() ==> (#[trigger] entries[i]).0 != (#[trigger]
    entries[j]).0
}

/// The map that the entries spell out.
pub open spec fn entries_map<V>(entries: Entries<V>) -> Map<Seq<char>, V>
    decreases entries.len(),
{
    if entries.len() == 0 {
        Map::empty()
    } else {
        entries_map(entries.drop_last()).insert(entries.last().0, entries.last().1)
    }
}

/// The map has the keys of the entries, each with its value.
pub proof fn lemma_entries_map<V>(entries: Entries<V>)
    requires
        distinct_keys(entries),
    ensures
        forall|i: int|
            0 <= i < entries.len() ==> {
                &&& entries_map(entries).contains_key((#[trigger] entries[i]).0)
                &&& entries_map(entries)[entries[i].0] == entries[i].1
            },
        forall|key: Seq<char>| #[trigger]
            entries_map(entries).contains_key(key) ==> exists|i: int|
                0 <= i < entries.len() && (#[trigger] entries[i]).0 == key,
    decreases entries.len(),
{
    if entries.len() > 0 {
        let rest = entries.drop_last();
        assert forall|i: int, j: int| 0 <= i < j < rest.len() implies (#[trigger] rest[i]).0 != (
        #[trigger] rest[j]).0 by {
            assert(entries[i].0 != entries[j].0);
        }
        lemma_entries_map(rest);
        let last = entries.len() - 1;
        assert forall|i: int| 0 <= i < entries.len() implies {
            &&& entries_map(entries).contains_key((#[trigger] entries[i]).0)
            &&& entries_map(entries)[entries[i].0] == entries[i].1
        } by {
            if i < last {
                assert(rest[i] == entries[i]);
                assert(entries[i].0 != entries[last].0);
            }
        }
        assert forall|key: Seq<char>| #[trigger]
            entries_map(entries).contains_key(key) implies exists|i: int|
            0 <= i < entries.len() && (#[trigger] entries[i]).0 == key by {
            if key == entries.last().0 {
                assert(entries[last].0 == key);
            } else {
                assert(entries_map(rest).contains_key(key));
                let i = choose|i: int| 0 <= i < rest.len() && (#[trigger] rest[i]).0 == key;
                assert(entries[i].0 == key);
            }
        }
    }
}

/// Two lists of entries with distinct keys spell out the same map exactly if each holds every
/// entry of the other.
pub proof fn lemma_same_map<V>(left: Entries<V>, right: Entries<V>)
    requires
        distinct_keys(left),
        distinct_keys(right),
    ensures
        entries_map(left) == entries_map(right) <==> (forall|i: int|
            0 <= i < left.len() ==> right.contains(#[trigger] left[i])) && (forall|i: int|
            0 <= i < right.len() ==> left.contains(#[trigger] right[i])),
{
    lemma_entries_map(left);
    lemma_entries_map(right);
    if entries_map(left) == entries_map(right) {
        assert forall|i: int| 0 <= i < left.len() implies right.contains(#[trigger] left[i]) by {
            assert(entries_map(right).contains_key(left[i].0));
            let j = choose|j: int| 0 <= j < right.len() && (#[trigger] right[j]).0 == left[i].0;
            assert(right[j] == left[i]);
        }
        assert forall|i: int| 0 <= i < right.len() implies left.contains(#[trigger] right[i]) by {
            assert(entries_map(left).contains_key(right[i].0));
            let j = choose|j: int| 0 <= j < left.len() && (#[trigger] left[j]).0 == right[i].0;
            assert(left[j] == right[i]);
        }
    }
    if (forall|i: int| 0 <= i < left.len() ==> right.contains(#[trigger] left[i])) && (forall|
        i: int,
    |
        0 <= i < right.len() ==> left.contains(#[trigger] right[i])) {
        assert forall|key: Seq<char>|
            #![trigger entries_map(left).contains_key(key)]
            #![trigger entries_map(right).contains_key(key)]
            entries_map(left).contains_key(key) == entries_map(right).contains_key(key) && (
            entries_map(left).contains_key(key) ==> entries_map(left)[key] == entries_map(
                right,
            )[key]) by {
            if entries_map(left).contains_key(key) {
                let i = choose|i: int| 0 <= i < left.len() && (#[trigger] left[i]).0 == key;
                assert(right.contains(left[i]));
                let j = choose|j: int| 0 <= j < right.len() && right[j] == left[i];
                assert(right[j].0 == key);
            }
            if entries_map(right).contains_key(key) {
                let i = choose|i: int| 0 <= i < right.len() && (#[trigger] right[i]).0 == key;
                assert(left.contains(right[i]));
                let j = choose|j: int| 0 <= j < left.len() && left[j] == right[i];
                assert(left[j].0 == key);
            }
        }
        assert(entries_map(left) =~= entries_map(right));
    }
}

/// The entries with a function applied to each value.
pub open spec fn mapped_entries<V, W>(entries: Entries<V>, f: spec_fn(V) -> W) -> Entries<W> {
    entries.map_values(|entry: (Seq<char>, V)| (entry.0, f(entry.1)))
}

/// To apply a function to each value of the entries is to apply it to each value of the map.
pub proof fn lemma_mapped_entries<V, W>(entries: Entries<V>, f: spec_fn(V) -> W)
    ensures
        entries_map(mapped_entries(entries, f)) == entries_map(entries).map_values(f),
        distinct_keys(entries) ==> distinct_keys(mapped_entries(entries, f)),
    decreases entries.len(),
{
    let mapped = mapped_entries(entries, f);
    if entries.len() == 0 {
        assert(entries_map(mapped) =~= entries_map(entries).map_values(f));
    } else {
        lemma_mapped_entries(entries.drop_last(), f);
        assert(mapped.drop_last() =~= mapped_entries(entries.drop_last(), f));
        assert(entries_map(mapped) =~= entries_map(entries).map_values(f));
    }
    if distinct_keys(entries) {
        assert forall|i: int, j: int| 0 <= i < j < mapped.len() implies (#[trigger] mapped[i]).0
            != (#[trigger] mapped[j]).0 by {
            assert(entries[i].0 != entries[j].0);
        }
    }
}

/// Two lists of entries that spell out the same map hold the same entries.
pub proof fn lemma_same_map_same_entries<V>(left: Entries<V>, right: Entries<V>)
    requires
        distinct_keys(left),
        distinct_keys(right),
        entries_map(left) == entries_map(right),
    ensures
        left.to_multiset() == right.to_multiset(),
{
    lemma_same_map(left, right);
    assert forall|i: int, j: int| 0 <= i < left.len() && 0 <= j < left.len() && i
        != j implies left[i] != left[j] by {
        if i < j {
            assert(left[i].0 != left[j].0);
        } else {
            assert(left[j].0 != left[i].0);
        }
    }
    assert forall|i: int, j: int| 0 <= i < right.len() && 0 <= j < right.len() && i
        != j implies right[i] != right[j] by {
        if i < j {
            assert(right[i].0 != right[j].0);
        } else {
            assert(right[j].0 != right[i].0);
        }
    }
    crate::order::lemma_same_items(left, right);
}

/// A map from texts to values, as a list of entries whose keys are distinct.
#[derive(Debug)]
pub struct StringMap<V> {
    entries: Vec<(String, V)>,
}

impl<V> View for StringMap<V> {
    type V = Map<Seq<char>, V>;

    open spec fn view(&self) -> Map<Seq<char>, V> {
        entries_map(self.entries())
    }
}

impl<V> StringMap<V> {
    /// The entries, in the order in which they are walked.
    pub closed spec fn entries(&self) -> Entries<V> {
        self.entries@.map_values(|entry: (String, V)| (entry.0@, entry.1))
    }

    /// No key occurs twice.
    #[verifier::type_invariant]
    pub open spec fn wf(&self) -> bool {
        distinct_keys(self.entries())
    }

    /// An empty map.
    pub fn new() -> (map: Self)
        ensures
            map@ == Map::<Seq<char>, V>::empty(),
            map.entries().len() == 0,
            map.wf(),
    {
        StringMap { entries: Vec::new() }
    }

    /// The number of entries.
    pub fn len(&self) -> (length: usize)
        ensures
            length == self.entries().len(),
    {
        self.entries.len()
    }

    /// Whether the map has no entry.
    pub fn is_empty(&self) -> (empty: bool)
        ensures
            empty == (self.entries().len() == 0),
            empty == (self@ == Map::<Seq<char>, V>::empty()),
    {
        proof {
            use_type_invariant(self);
            lemma_entries_map(self.entries());
            if self.entries().len() > 0 {
                assert(self@.contains_key(self.entries()[0].0));
            }
        }
        self.entries.len() == 0
    }

    /// The key of the entry at `index`.
    pub fn key_at(&self, index: usize) -> (key: &String)
        requires
            index < self.entries().len(),
        ensures
            key@ == self.entries()[index as int].0,
    {
        &self.entries[index].0
    }

    /// The value of the entry at `index`.
    pub fn value_at(&self, index: usize) -> (value: &V)
        requires
            index < self.entries().len(),
        ensures
            *value == self.entries()[index as int].1,
    {
        &self.entries[index].1
    }

    /// The entries, as pairs of a key and a value.
    pub fn pairs(&self) -> (pairs: &Vec<(String, V)>)
        ensures
            pairs@.map_values(|pair: (String, V)| (pair.0@, pair.1)) == self.entries(),
    {
        &self.entries
    }

    /// Where `key` stands among the entries.
    fn position(&self, key: &str) -> (position: Option<usize>)
        ensures
            match position {
                Some(position) => {
                    &&& position < self.entries().len()
                    &&& self.entries()[position as int].0 == key@
                    &&& self@.contains_key(key@)
                    &&& self@[key@] == self.entries()[position as int].1
                },
                None => !self@.contains_key(key@) && forall|i: int|
                    0 <= i < self.entries().len() ==> (#[trigger] self.entries()[i]).0 != key@,
            },
    {
        proof {
            use_type_invariant(self);
            lemma_entries_map(self.entries());
        }
        let wanted: String = key.to_string();
        let mut i: usize = 0;
        while i < self.entries.len()
            invariant
                wanted@ == key@,
                i <= self.entries().len(),
                self.entries().len() == self.entries@.len(),
                forall|j: int| 0 <= j < i ==> (#[trigger] self.entries()[j]).0 != key@,
                forall|j: int|
                    0 <= j < self.entries().len() ==> {
                        &&& self@.contains_key((#[trigger] self.entries()[j]).0)
                        &&& self@[self.entries()[j].0] == self.entries()[j].1
                    },
            decreases self.entries@.len() - i,
        {
            assert(self.entries()[i as int].0 == self.entries@[i as int].0@);
            if self.entries[i].0 == wanted {
                return Some(i);
            }
            i += 1;
        }
        None
    }

    /// The value of `key`.
    pub fn get(&self, key: &str) -> (value: Option<&V>)
        ensures
            match value {
                Some(value) => self@.contains_key(key@) && *value == self@[key@],
                None => !self@.contains_key(key@),
            },
    {
        match self.position(key) {
            Some(position) => Some(&self.entries[position].1),
            None => None,
        }
    }

    /// Whether `key` has a value.
    pub fn contains_key(&self, key: &str) -> (contained: bool)
        ensures
            contained == self@.contains_key(key@),
    {
        self.position(key).is_some()
    }

    /// Gives `key` the value, and returns the value that it had.
    pub fn insert(&mut self, key: String, value: V) -> (previous: Option<V>)
        ensures
            final(self)@ == old(self)@.insert(key@, value),
            match previous {
                Some(previous) => old(self)@.contains_key(key@) && previous == old(self)@[key@],
                None => !old(self)@.contains_key(key@),
            },
            final(self).wf(),
    {
        proof {
            use_type_invariant(&*self);
            lemma_entries_map(self.entries());
        }
        let ghost before = self.entries();
        let position = self.position(key.as_str());
        let mut entries: Vec<(String, V)> = Vec::new();
        core::mem::swap(&mut entries, &mut self.entries);
        let mut previous: Option<V> = None;
        match position {
            Some(position) => {
                let mut replaced: V = value;
                let ghost given = replaced;
                core::mem::swap(&mut replaced, &mut entries[position].1);
                previous = Some(replaced);
                let ghost after = entries@.map_values(|entry: (String, V)| (entry.0@, entry.1));
                proof {
                    assert(after =~= before.update(position as int, (key@, given)));
                    assert(distinct_keys(after)) by {
                        assert forall|i: int, j: int| 0 <= i < j < after.len() implies (#[trigger]
                        after[i]).0 != (#[trigger] after[j]).0 by {
                            assert(before[i].0 != before[j].0);
                        }
                    }
                    lemma_replaced_entry(before, position as int, given);
                }
            },
            None => {
                let ghost added = (key@, value);
                entries.push((key, value));
                let ghost after = entries@.map_values(|entry: (String, V)| (entry.0@, entry.1));
                proof {
                    assert(after =~= before.push(added));
                    assert(distinct_keys(after)) by {
                        assert forall|i: int, j: int| 0 <= i < j < after.len() implies (#[trigger]
                        after[i]).0 != (#[trigger] after[j]).0 by {
                            if j < before.len() {
                                assert(before[i].0 != before[j].0);
                            } else {
                                assert(before[i].0 != added.0);
                            }
                        }
                    }
                    assert(after.drop_last() =~= before);
                }
            },
        }
        self.entries = entries;
        previous
    }

    /// Takes `key` out of the map, and returns the value that it had.
    pub fn remove(&mut self, key: &str) -> (removed: Option<V>)
        ensures
            final(self)@ == old(self)@.remove(key@),
            match removed {
                Some(removed) => old(self)@.contains_key(key@) && removed == old(self)@[key@],
                None => !old(self)@.contains_key(key@),
            },
            final(self).wf(),
    {
        proof {
            use_type_invariant(&*self);
            lemma_entries_map(self.entries());
        }
        let ghost before = self.entries();
        match self.position(key) {
            Some(position) => {
                let mut entries: Vec<(String, V)> = Vec::new();
                core::mem::swap(&mut entries, &mut self.entries);
                let (_, removed) = entries.remove(position);
                let ghost after = entries@.map_values(|entry: (String, V)| (entry.0@, entry.1));
                proof {
                    assert(after =~= before.remove(position as int));
                    lemma_removed_entry(before, position as int);
                }
                self.entries = entries;
                Some(removed)
            },
            None => {
                assert(self@.remove(key@) =~= self@);
                None
            },
        }
    }
}

impl<V: Clone> Clone for StringMap<V> {
    fn clone(&self) -> (copy: Self)
        ensures
            copy.wf(),
            copy.entries().len() == self.entries().len(),
            forall|i: int|
                0 <= i < self.entries().len() ==> {
                    &&& (#[trigger] copy.entries()[i]).0 == self.entries()[i].0
                    &&& cloned(self.entries()[i].1, copy.entries()[i].1)
                },
    {
        proof {
            use_type_invariant(self);
        }
        let mut entries: Vec<(String, V)> = Vec::new();
        let mut i: usize = 0;
        while i < self.entries.len()
            invariant
                i <= self.entries@.len(),
                entries@.len() == i,
                forall|j: int|
                    0 <= j < i ==> {
                        &&& (#[trigger] entries@[j]).0@ == self.entries@[j].0@
                        &&& cloned(self.entries@[j].1, entries@[j].1)
                    },
            decreases self.entries@.len() - i,
        {
            entries.push((self.entries[i].0.clone(), self.entries[i].1.clone()));
            i += 1;
        }
        let ghost copied = entries@.map_values(|entry: (String, V)| (entry.0@, entry.1));
        assert forall|j: int, k: int| 0 <= j < k < copied.len() implies (#[trigger] copied[j]).0 != (
        #[trigger] copied[k]).0 by {
            assert(self.entries()[j].0 != self.entries()[k].0);
        }
        StringMap { entries }
    }
}

impl<V> Default for StringMap<V> {
    fn default() -> (map: Self)
        ensures
            map@ == Map::<Seq<char>, V>::empty(),
            map.entries().len() == 0,
            map.wf(),
    {
        StringMap::new()
    }
}

/// The values listed under `key`: none where the map does not have the key.
pub open spec fn listed(map: Map<Seq<char>, Vec<String>>, key: Seq<char>) -> Seq<String> {
    if map.contains_key(key) {
        map[key]@
    } else {
        Seq::empty()
    }
}

impl StringMap<Vec<String>> {
    /// Appends `values` to the list under `key`, which begins empty.
    pub fn append(&mut self, key: String, values: Vec<String>)
        ensures
            final(self)@ == old(self)@.insert(key@, final(self)@[key@]),
            final(self)@[key@]@ == listed(old(self)@, key@) + values@,
            final(self).wf(),
    {
        let mut list = match self.remove(key.as_str()) {
            Some(list) => list,
            None => Vec::new(),
        };
        let ghost key_text = key@;
        let mut added = values;
        list.append(&mut added);
        self.insert(key, list);
        assert(self@ =~= old(self)@.insert(key_text, self@[key_text]));
    }
}

impl StringMap<String> {
    /// The map from texts to texts.
    pub open spec fn labels(&self) -> Map<Seq<char>, Seq<char>> {
        self@.map_values(|value: String| value@)
    }
}

impl PartialEq for StringMap<String> {
    fn eq(&self, other: &Self) -> (same: bool) {
        all_in(self, other) && all_in(other, self)
    }
}

impl Eq for StringMap<String> {

}

impl vstd::std_specs::cmp::PartialEqSpecImpl for StringMap<String> {
    open spec fn obeys_eq_spec() -> bool {
        true
    }

    open spec fn eq_spec(&self, other: &Self) -> bool {
        labels_within(self.labels(), other.labels()) && labels_within(other.labels(), self.labels())
    }
}

/// Whether `larger` has every key of `smaller`, with the same value.
pub open spec fn labels_within(
    smaller: Map<Seq<char>, Seq<char>>,
    larger: Map<Seq<char>, Seq<char>>,
) -> bool {
    forall|key: Seq<char>| #[trigger]
        smaller.contains_key(key) ==> larger.contains_key(key) && larger[key] == smaller[key]
}

/// Whether `larger` has every key of `smaller`, with the same value.
fn all_in(smaller: &StringMap<String>, larger: &StringMap<String>) -> (within: bool)
    ensures
        within == labels_within(smaller.labels(), larger.labels()),
{
    proof {
        use_type_invariant(smaller);
        lemma_entries_map(smaller.entries());
    }
    let mut i: usize = 0;
    while i < smaller.len()
        invariant
            i <= smaller.entries().len(),
            forall|j: int|
                0 <= j < smaller.entries().len() ==> {
                    &&& smaller@.contains_key((#[trigger] smaller.entries()[j]).0)
                    &&& smaller@[smaller.entries()[j].0] == smaller.entries()[j].1
                },
            forall|j: int|
                0 <= j < i ==> {
                    &&& larger@.contains_key((#[trigger] smaller.entries()[j]).0)
                    &&& larger@[smaller.entries()[j].0]@ == smaller.entries()[j].1@
                },
        decreases smaller.entries().len() - i,
    {
        let key = smaller.key_at(i);
        let same = match larger.get(key.as_str()) {
            Some(value) => *value == *smaller.value_at(i),
            None => false,
        };
        if !same {
            assert(smaller.labels().contains_key(smaller.entries()[i as int].0));
            return false;
        }
        i += 1;
    }
    assert forall|key: Seq<char>| #[trigger] smaller.labels().contains_key(key) implies larger.labels().contains_key(
        key,
    ) && larger.labels()[key] == smaller.labels()[key] by {
        assert(smaller@.contains_key(key));
        let j = choose|j: int|
            0 <= j < smaller.entries().len() && (#[trigger] smaller.entries()[j]).0 == key;
        assert(larger@.contains_key(smaller.entries()[j].0));
    }
    true
}

/// To replace the value in one entry is to give its key the new value.
proof fn lemma_replaced_entry<V>(entries: Entries<V>, index: int, value: V)
    requires
        distinct_keys(entries),
        0 <= index < entries.len(),
    ensures
        distinct_keys(entries.update(index, (entries[index].0, value))),
        entries_map(entries.update(index, (entries[index].0, value))) == entries_map(
            entries,
        ).insert(entries[index].0, value),
{
    let key = entries[index].0;
    let after = entries.update(index, (key, value));
    assert forall|i: int, j: int| 0 <= i < j < after.len() implies (#[trigger] after[i]).0 != (
    #[trigger] after[j]).0 by {
        assert(entries[i].0 != entries[j].0);
    }
    lemma_entries_map(entries);
    lemma_entries_map(after);
    let expected = entries_map(entries).insert(key, value);
    assert forall|k: Seq<char>|
        #![trigger entries_map(after).contains_key(k)]
        #![trigger expected.contains_key(k)]
        entries_map(after).contains_key(k) == expected.contains_key(k) && (expected.contains_key(k)
            ==> entries_map(after)[k] == expected[k]) by {
        if entries_map(after).contains_key(k) {
            let i = choose|i: int| 0 <= i < after.len() && (#[trigger] after[i]).0 == k;
            assert(entries[i].0 == k);
            if i != index {
                assert(k != key) by {
                    if i < index {
                        assert(entries[i].0 != entries[index].0);
                    } else {
                        assert(entries[index].0 != entries[i].0);
                    }
                }
            }
        }
        if expected.contains_key(k) {
            if k == key {
                assert(after[index].0 == k);
            } else {
                let i = choose|i: int| 0 <= i < entries.len() && (#[trigger] entries[i]).0 == k;
                assert(after[i] == entries[i]);
            }
        }
    }
    assert(entries_map(after) =~= expected);
}

/// To take one entry out is to take its key out of the map.
proof fn lemma_removed_entry<V>(entries: Entries<V>, index: int)
    requires
        distinct_keys(entries),
        0 <= index < entries.len(),
    ensures
        distinct_keys(entries.remove(index)),
        entries_map(entries.remove(index)) == entries_map(entries).remove(entries[index].0),
{
    let key = entries[index].0;
    let after = entries.remove(index);
    assert forall|i: int, j: int| 0 <= i < j < after.len() implies (#[trigger] after[i]).0 != (
    #[trigger] after[j]).0 by {
        let before_i = if i < index {
            i
        } else {
            i + 1
        };
        let before_j = if j < index {
            j
        } else {
            j + 1
        };
        assert(entries[before_i].0 != entries[before_j].0);
    }
    lemma_entries_map(entries);
    lemma_entries_map(after);
    let expected = entries_map(entries).remove(key);
    assert forall|k: Seq<char>|
        #![trigger entries_map(after).contains_key(k)]
        #![trigger expected.contains_key(k)]
        entries_map(after).contains_key(k) == expected.contains_key(k) && (expected.contains_key(k)
            ==> entries_map(after)[k] == expected[k]) by {
        if entries_map(after).contains_key(k) {
            let i = choose|i: int| 0 <= i < after.len() && (#[trigger] after[i]).0 == k;
            if i < index {
                assert(entries[i] == after[i]);
                assert(entries[i].0 != entries[index].0);
            } else {
                assert(entries[i + 1] == after[i]);
                assert(entries[index].0 != entries[i + 1].0);
            }
        }
        if expected.contains_key(k) {
            let i = choose|i: int| 0 <= i < entries.len() && (#[trigger] entries[i]).0 == k;
            if i < index {
                assert(after[i] == entries[i]);
            } else {
                assert(after[i - 1] == entries[i]);
            }
        }
    }
    assert(entries_map(after) =~= expected);
}

/// Two maps from texts to texts are equal exactly where they hold the same texts under the same
/// keys.
pub proof fn law_equal_maps_hold_the_same(left: StringMap<String>, right: StringMap<String>)
    ensures
        vstd::std_specs::cmp::PartialEqSpec::eq_spec(&left, &right) <==> (left@.dom()
            == right@.dom() && forall|key: Seq<char>| #[trigger]
            left@.contains_key(key) ==> left@[key]@ == right@[key]@),
{
    if vstd::std_specs::cmp::PartialEqSpec::eq_spec(&left, &right) {
        assert forall|key: Seq<char>| left@.dom().contains(key) == right@.dom().contains(key) by {
            assert(left.labels().contains_key(key) == left@.contains_key(key));
            assert(right.labels().contains_key(key) == right@.contains_key(key));
        }
        assert(left@.dom() =~= right@.dom());
        assert forall|key: Seq<char>| #[trigger] left@.contains_key(key) implies left@[key]@
            == right@[key]@ by {
            assert(left.labels().contains_key(key));
        }
    } else if left@.dom() == right@.dom() && forall|key: Seq<char>| #[trigger]
        left@.contains_key(key) ==> left@[key]@ == right@[key]@ {
        assert forall|key: Seq<char>| #[trigger]
            left.labels().contains_key(key) implies right.labels().contains_key(key)
            && right.labels()[key] == left.labels()[key] by {
            assert(left@.contains_key(key));
            assert(right@.dom().contains(key));
        }
        assert forall|key: Seq<char>| #[trigger]
            right.labels().contains_key(key) implies left.labels().contains_key(key)
            && left.labels()[key] == right.labels()[key] by {
            assert(left@.dom().contains(key));
            assert(left@.contains_key(key));
        }
    }
}

} // verus!
