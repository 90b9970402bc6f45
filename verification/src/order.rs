//! Sorting, and the order of texts.
use vstd::prelude::*;

verus! {

/// A type whose values can be compared: any two, and consistently.
pub trait Ranked: Sized {
    /// Whether `self` may stand before `other`.
    spec fn at_most(self, other: Self) -> bool;

    proof fn lemma_total(a: Self, b: Self)
        ensures
            a.at_most(b) || b.at_most(a),
    ;

    proof fn lemma_transitive(a: Self, b: Self, c: Self)
        requires
            a.at_most(b),
            b.at_most(c),
        ensures
            a.at_most(c),
    ;

    fn compare_at_most(&self, other: &Self) -> (result: bool)
        ensures
            result == self.at_most(*other),
    ;
}

/// Whether no item stands behind one that it should precede.
pub open spec fn is_sorted<T: Ranked>(items: Seq<T>) -> bool {
    forall|i: int, j: int| 0 <= i < j < items.len() ==> (#[trigger] items[i]).at_most(#[trigger]
    items[j])
}

/// Sorts the items.
pub fn sort<T: Ranked>(items: Vec<T>) -> (sorted: Vec<T>)
    ensures
        is_sorted(sorted@),
        sorted@.to_multiset() == items@.to_multiset(),
{
    let mut rest = items;
    let mut sorted: Vec<T> = Vec::new();
    let ghost all = rest@;
    proof {
        broadcast use vstd::seq_lib::group_to_multiset_ensures;

        assert(sorted@ =~= Seq::<T>::empty());
        assert(sorted@.to_multiset() =~= vstd::multiset::Multiset::<T>::empty());
        assert(rest@.to_multiset().add(sorted@.to_multiset()) =~= all.to_multiset());
    }
    while rest.len() > 0
        invariant
            is_sorted(sorted@),
            rest@.to_multiset().add(sorted@.to_multiset()) == all.to_multiset(),
        decreases rest@.len(),
    {
        let ghost rest_before = rest@;
        let ghost sorted_before = sorted@;
        let item = rest.remove(rest.len() - 1);
        let mut i: usize = 0;
        while i < sorted.len() && !item.compare_at_most(&sorted[i])
            invariant
                i <= sorted@.len(),
                is_sorted(sorted@),
                sorted@ == sorted_before,
                forall|j: int| 0 <= j < i ==> !item.at_most(#[trigger] sorted@[j]),
            decreases sorted@.len() - i,
        {
            i += 1;
        }
        sorted.insert(i, item);
        proof {
            broadcast use vstd::seq_lib::group_to_multiset_ensures;

            assert(sorted@ =~= sorted_before.insert(i as int, item));
            assert(rest@ =~= rest_before.remove(rest_before.len() - 1));
            assert(sorted@.to_multiset() =~= sorted_before.to_multiset().insert(item));
            assert(rest@.to_multiset() =~= rest_before.to_multiset().remove(item));
            assert(rest_before.contains(item));
            assert(rest@.to_multiset().add(sorted@.to_multiset()) =~= rest_before.to_multiset().add(
                sorted_before.to_multiset(),
            ));
            assert forall|a: int, b: int| 0 <= a < b < sorted@.len() implies (
            #[trigger] sorted@[a]).at_most(#[trigger] sorted@[b]) by {
                lemma_inserted(sorted_before, i as int, item, a, b);
            }
        }
    }
    proof {
        assert(rest@ =~= Seq::<T>::empty());
        broadcast use vstd::seq_lib::group_to_multiset_ensures;

        assert(rest@.to_multiset() =~= vstd::multiset::Multiset::<T>::empty());
        assert(rest@.to_multiset().add(sorted@.to_multiset()) =~= sorted@.to_multiset());
    }
    sorted
}

/// An item put in front of the first that it may precede leaves the list sorted.
proof fn lemma_inserted<T: Ranked>(items: Seq<T>, index: int, item: T, a: int, b: int)
    requires
        is_sorted(items),
        0 <= index <= items.len(),
        forall|j: int| 0 <= j < index ==> !item.at_most(#[trigger] items[j]),
        index < items.len() ==> item.at_most(items[index]),
        0 <= a < b <= items.len(),
    ensures
        items.insert(index, item)[a].at_most(items.insert(index, item)[b]),
{
    let after = items.insert(index, item);
    if b < index {
        assert(after[a] == items[a] && after[b] == items[b]);
    } else if b == index {
        assert(after[a] == items[a]);
        T::lemma_total(items[a], item);
    } else if a < index {
        assert(after[a] == items[a] && after[b] == items[b - 1]);
    } else if a == index {
        assert(after[b] == items[b - 1]);
        if b - 1 > index {
            T::lemma_transitive(item, items[index], items[b - 1]);
        }
    } else {
        assert(after[a] == items[a - 1] && after[b] == items[b - 1]);
    }
}

/// There is one way to sort items of which no two different ones may precede each other.
pub proof fn lemma_sorted_is_unique<T>(left: Seq<T>, right: Seq<T>, at_most: spec_fn(T, T) -> bool)
    requires
        forall|i: int, j: int|
            0 <= i < j < left.len() ==> at_most(#[trigger] left[i], #[trigger] left[j]),
        forall|i: int, j: int|
            0 <= i < j < right.len() ==> at_most(#[trigger] right[i], #[trigger] right[j]),
        left.to_multiset() == right.to_multiset(),
        forall|i: int, j: int|
            0 <= i < left.len() && 0 <= j < left.len() && at_most(
                #[trigger] left[i],
                #[trigger] left[j],
            ) && at_most(left[j], left[i]) ==> left[i] == left[j],
    ensures
        left == right,
    decreases left.len(),
{
    broadcast use vstd::seq_lib::group_to_multiset_ensures;

    assert(left.to_multiset().len() == left.len());
    assert(right.to_multiset().len() == right.len());
    if left.len() == 0 {
        assert(left =~= right);
    } else {
        let end = left.len() - 1;
        assert(left.contains(left[end]));
        assert(left.to_multiset().count(left[end]) > 0);
        assert(right.contains(left[end]));
        assert(right.contains(right[end]));
        assert(right.to_multiset().count(right[end]) > 0);
        assert(left.contains(right[end]));
        let i = choose|i: int| 0 <= i < right.len() && right[i] == left[end];
        let j = choose|j: int| 0 <= j < left.len() && left[j] == right[end];
        if i < end && j < end {
            assert(at_most(right[i], right[end]));
            assert(at_most(left[j], left[end]));
            assert(left[end] == left[j]);
        }
        assert(left[end] == right[end]);
        assert(left.remove(end) =~= left.drop_last());
        assert(right.remove(end) =~= right.drop_last());
        assert(left.drop_last().to_multiset() =~= right.drop_last().to_multiset());
        lemma_sorted_is_unique(left.drop_last(), right.drop_last(), at_most);
        assert(left =~= left.drop_last().push(left[end]));
        assert(right =~= right.drop_last().push(right[end]));
    }
}

// ---------------------------------------------------------------------------------------------
// Texts
// ---------------------------------------------------------------------------------------------

/// The order of byte strings: by the first byte in which they differ, a prefix before the whole.
pub open spec fn bytes_le(left: Seq<u8>, right: Seq<u8>) -> bool
    decreases left.len(),
{
    if left.len() == 0 {
        true
    } else if right.len() == 0 {
        false
    } else if left[0] == right[0] {
        bytes_le(left.drop_first(), right.drop_first())
    } else {
        left[0] < right[0]
    }
}

/// The order of texts: that of their bytes in UTF-8.
pub open spec fn text_le(left: Seq<char>, right: Seq<char>) -> bool {
    bytes_le(vstd::utf8::encode_utf8(left), vstd::utf8::encode_utf8(right))
}

proof fn lemma_bytes_total(a: Seq<u8>, b: Seq<u8>)
    ensures
        bytes_le(a, b) || bytes_le(b, a),
    decreases a.len(),
{
    if a.len() > 0 && b.len() > 0 && a[0] == b[0] {
        lemma_bytes_total(a.drop_first(), b.drop_first());
    }
}

proof fn lemma_bytes_transitive(a: Seq<u8>, b: Seq<u8>, c: Seq<u8>)
    requires
        bytes_le(a, b),
        bytes_le(b, c),
    ensures
        bytes_le(a, c),
    decreases a.len(),
{
    if a.len() > 0 && a[0] == b[0] && b[0] == c[0] {
        lemma_bytes_transitive(a.drop_first(), b.drop_first(), c.drop_first());
    }
}

proof fn lemma_bytes_antisymmetric(a: Seq<u8>, b: Seq<u8>)
    requires
        bytes_le(a, b),
        bytes_le(b, a),
    ensures
        a == b,
    decreases a.len(),
{
    if a.len() > 0 && b.len() > 0 {
        lemma_bytes_antisymmetric(a.drop_first(), b.drop_first());
        assert(a =~= seq![a[0]] + a.drop_first());
        assert(b =~= seq![b[0]] + b.drop_first());
    } else {
        assert(a =~= b);
    }
}

/// Texts that stand before each other are the same text.
pub proof fn lemma_text_antisymmetric(a: Seq<char>, b: Seq<char>)
    requires
        text_le(a, b),
        text_le(b, a),
    ensures
        a == b,
{
    lemma_bytes_antisymmetric(vstd::utf8::encode_utf8(a), vstd::utf8::encode_utf8(b));
    vstd::utf8::encode_utf8_decode_utf8(a);
    vstd::utf8::encode_utf8_decode_utf8(b);
}

/// Any two texts can be compared.
pub proof fn lemma_text_total(a: Seq<char>, b: Seq<char>)
    ensures
        text_le(a, b) || text_le(b, a),
{
    lemma_bytes_total(vstd::utf8::encode_utf8(a), vstd::utf8::encode_utf8(b));
}

pub proof fn lemma_text_transitive(a: Seq<char>, b: Seq<char>, c: Seq<char>)
    requires
        text_le(a, b),
        text_le(b, c),
    ensures
        text_le(a, c),
{
    lemma_bytes_transitive(
        vstd::utf8::encode_utf8(a),
        vstd::utf8::encode_utf8(b),
        vstd::utf8::encode_utf8(c),
    );
}

/// The order of texts as a relation.
pub open spec fn text_order() -> spec_fn(Seq<char>, Seq<char>) -> bool {
    |left: Seq<char>, right: Seq<char>| text_le(left, right)
}

/// The order of texts is a total order.
pub proof fn law_text_order_is_total()
    ensures
        vstd::relations::total_ordering(text_order()),
{
    let order = text_order();
    assert forall|a: Seq<char>| #[trigger] order(a, a) by {
        lemma_text_total(a, a);
    }
    assert forall|a: Seq<char>, b: Seq<char>| #[trigger] order(a, b) && #[trigger] order(
        b,
        a,
    ) implies a == b by {
        lemma_text_antisymmetric(a, b);
    }
    assert forall|a: Seq<char>, b: Seq<char>, c: Seq<char>| #[trigger]
        order(a, b) && #[trigger] order(b, c) implies order(a, c) by {
        lemma_text_transitive(a, b, c);
    }
    assert forall|a: Seq<char>, b: Seq<char>| #[trigger] order(a, b) || #[trigger] order(b, a) by {
        lemma_text_total(a, b);
    }
}

/// Compares two texts.
pub fn text_at_most(left: &str, right: &str) -> (result: bool)
    ensures
        result == text_le(left@, right@),
{
    let a = left.as_bytes();
    let b = right.as_bytes();
    let mut i: usize = 0;
    assert(a@.skip(0) =~= a@ && b@.skip(0) =~= b@);
    while i < a.len() && i < b.len() && a[i] == b[i]
        invariant
            i <= a@.len(),
            i <= b@.len(),
            bytes_le(a@, b@) == bytes_le(a@.skip(i as int), b@.skip(i as int)),
        decreases a@.len() - i,
    {
        assert(a@.skip(i as int).drop_first() =~= a@.skip(i + 1));
        assert(b@.skip(i as int).drop_first() =~= b@.skip(i + 1));
        i += 1;
    }
    if i == a.len() {
        true
    } else if i == b.len() {
        false
    } else {
        a[i] < b[i]
    }
}

impl Ranked for String {
    open spec fn at_most(self, other: Self) -> bool {
        text_le(self@, other@)
    }

    proof fn lemma_total(a: Self, b: Self) {
        self::lemma_text_total(a@, b@);
    }

    proof fn lemma_transitive(a: Self, b: Self, c: Self) {
        self::lemma_text_transitive(a@, b@, c@);
    }

    fn compare_at_most(&self, other: &Self) -> (result: bool) {
        text_at_most(self.as_str(), other.as_str())
    }
}

/// Sorting texts: the result is the one sorted arrangement of them.
pub fn sort_texts(items: Vec<String>) -> (sorted: Vec<String>)
    ensures
        crate::text::texts(sorted@) == crate::text::texts(items@).sort_by(text_order()),
{
    let sorted = sort(items);
    proof {
        let given = crate::text::texts(items@);
        let found = crate::text::texts(sorted@);
        law_text_order_is_total();
        given.lemma_sort_by_ensures(text_order());
        lemma_mapped_multiset(items@, sorted@, |value: String| value@);
        assert forall|i: int, j: int| 0 <= i < j < found.len() implies #[trigger] text_order()(
            found[i],
            found[j],
        ) by {
            assert(sorted@[i].at_most(sorted@[j]));
        }
        vstd::seq_lib::lemma_sorted_unique(
            found,
            given.sort_by(text_order()),
            text_order(),
        );
    }
    sorted
}

/// Lists that hold the same items still do when a function is applied to each.
pub proof fn lemma_mapped_multiset<A, B>(left: Seq<A>, right: Seq<A>, f: spec_fn(A) -> B)
    requires
        left.to_multiset() == right.to_multiset(),
    ensures
        left.map_values(f).to_multiset() == right.map_values(f).to_multiset(),
    decreases left.len(),
{
    broadcast use vstd::seq_lib::group_to_multiset_ensures;

    assert(left.to_multiset().len() == left.len());
    assert(right.to_multiset().len() == right.len());
    if left.len() == 0 {
        assert(left.map_values(f) =~= right.map_values(f));
    } else {
        let end = left.len() - 1;
        let last = left[end];
        assert(left.contains(last));
        assert(left.to_multiset().count(last) > 0);
        assert(right.to_multiset().count(last) > 0);
        let i = choose|i: int| 0 <= i < right.len() && right[i] == last;
        assert(left.remove(end).to_multiset() =~= right.remove(i).to_multiset());
        lemma_mapped_multiset(left.remove(end), right.remove(i), f);
        let left_mapped = left.map_values(f);
        let right_mapped = right.map_values(f);
        assert(left_mapped.remove(end) =~= left.remove(end).map_values(f));
        assert(right_mapped.remove(i) =~= right.remove(i).map_values(f));
        assert(left_mapped =~= left_mapped.remove(end).insert(end, f(last)));
        assert(right_mapped =~= right_mapped.remove(i).insert(i, f(last)));
    }
}

/// A list that holds the images of some items is the list of the images of these items in some
/// order.
pub proof fn lemma_rearranged_origin<A, B>(
    items: Seq<A>,
    f: spec_fn(A) -> B,
    images: Seq<B>,
) -> (origin: Seq<A>)
    requires
        images.to_multiset() == items.map_values(f).to_multiset(),
    ensures
        origin.map_values(f) == images,
        origin.to_multiset() == items.to_multiset(),
    decreases images.len(),
{
    broadcast use vstd::seq_lib::group_to_multiset_ensures;

    let mapped = items.map_values(f);
    assert(images.to_multiset().len() == images.len());
    assert(mapped.to_multiset().len() == mapped.len());
    if images.len() == 0 {
        assert(items.map_values(f) =~= images);
        items
    } else {
        let end = images.len() - 1;
        let last = images[end];
        assert(images.contains(last));
        assert(images.to_multiset().count(last) > 0);
        assert(mapped.to_multiset().count(last) > 0);
        assert(mapped.contains(last));
        let i = choose|i: int| 0 <= i < mapped.len() && mapped[i] == last;
        assert(items.remove(i).map_values(f) =~= mapped.remove(i));
        assert(images.remove(end) =~= images.drop_last());
        assert(images.drop_last().to_multiset() =~= mapped.remove(i).to_multiset());
        let front = lemma_rearranged_origin(items.remove(i), f, images.drop_last());
        let origin = front.push(items[i]);
        assert(origin.map_values(f) =~= images.drop_last().push(last));
        assert(images =~= images.drop_last().push(last));
        assert(items =~= items.remove(i).insert(i, items[i]));
        assert(origin.to_multiset() =~= items.to_multiset());
        origin
    }
}

/// Lists that hold the same items contain the same.
pub proof fn lemma_same_multiset_contains<A>(left: Seq<A>, right: Seq<A>, item: A)
    requires
        left.to_multiset() == right.to_multiset(),
        left.contains(item),
    ensures
        right.contains(item),
{
    broadcast use vstd::seq_lib::group_to_multiset_ensures;

    assert(left.to_multiset().count(item) > 0);
    assert(right.to_multiset().count(item) > 0);
}

/// Lists without repetition that hold each other's items hold the same items.
pub proof fn lemma_same_items<A>(left: Seq<A>, right: Seq<A>)
    requires
        left.no_duplicates(),
        right.no_duplicates(),
        forall|i: int| 0 <= i < left.len() ==> right.contains(#[trigger] left[i]),
        forall|i: int| 0 <= i < right.len() ==> left.contains(#[trigger] right[i]),
    ensures
        left.to_multiset() == right.to_multiset(),
{
    broadcast use vstd::seq_lib::group_to_multiset_ensures;

    left.lemma_multiset_has_no_duplicates();
    right.lemma_multiset_has_no_duplicates();
    assert forall|item: A| #[trigger]
        left.to_multiset().count(item) == right.to_multiset().count(item) by {
        if left.contains(item) {
            let i = choose|i: int| 0 <= i < left.len() && left[i] == item;
            assert(right.contains(left[i]));
            assert(left.to_multiset().contains(item));
            assert(right.to_multiset().contains(item));
        } else if right.contains(item) {
            let i = choose|i: int| 0 <= i < right.len() && right[i] == item;
            assert(left.contains(right[i]));
        }
    }
    assert(left.to_multiset() =~= right.to_multiset());
}

/// Texts are ordered by the first byte in which they differ in UTF-8, a text before those that it
/// begins.
pub proof fn law_texts_go_by_the_first_difference(left: Seq<char>, right: Seq<char>, n: int)
    requires
        0 <= n <= vstd::utf8::encode_utf8(left).len(),
        n <= vstd::utf8::encode_utf8(right).len(),
        vstd::utf8::encode_utf8(left).take(n) == vstd::utf8::encode_utf8(right).take(n),
    ensures
        ({
            let a = vstd::utf8::encode_utf8(left);
            let b = vstd::utf8::encode_utf8(right);
            &&& n == a.len() ==> text_le(left, right)
            &&& n == b.len() && n < a.len() ==> !text_le(left, right)
            &&& n < a.len() && n < b.len() && a[n] < b[n] ==> text_le(left, right) && !text_le(
                right,
                left,
            )
        }),
        text_order()(left, right) == text_le(left, right),
{
    let a = vstd::utf8::encode_utf8(left);
    let b = vstd::utf8::encode_utf8(right);
    lemma_bytes_after_prefix(a, b, n);
    lemma_bytes_after_prefix(b, a, n);
}

proof fn lemma_bytes_after_prefix(a: Seq<u8>, b: Seq<u8>, n: int)
    requires
        0 <= n <= a.len(),
        n <= b.len(),
        a.take(n) == b.take(n),
    ensures
        bytes_le(a, b) == bytes_le(a.skip(n), b.skip(n)),
    decreases n,
{
    if n == 0 {
        assert(a.skip(0) =~= a && b.skip(0) =~= b);
    } else {
        assert(a[0] == a.take(n)[0] && b[0] == b.take(n)[0]);
        assert(bytes_le(a, b) == bytes_le(a.drop_first(), b.drop_first()));
        let x = a.drop_first();
        let y = b.drop_first();
        assert(x.take(n - 1) =~= a.take(n).drop_first());
        assert(y.take(n - 1) =~= b.take(n).drop_first());
        lemma_bytes_after_prefix(x, y, n - 1);
        assert(x.skip(n - 1) =~= a.skip(n));
        assert(y.skip(n - 1) =~= b.skip(n));
    }
}

} // verus!
