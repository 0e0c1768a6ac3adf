//! Stable sorting by a number.
use vstd::prelude::*;

verus! {

/// A list with one more item: before those at its end with a larger key, after all others.
pub open spec fn inserted_by<T>(list: Seq<T>, item: T, key: spec_fn(T) -> int) -> Seq<T>
    decreases list.len(),
{
    if list.len() == 0 || key(list.last()) <= key(item) {
        list.push(item)
    } else {
        inserted_by(list.drop_last(), item, key).push(list.last())
    }
}

/// A list in the order of its keys; items with the same key keep their order.
pub open spec fn sorted_by<T>(list: Seq<T>, key: spec_fn(T) -> int) -> Seq<T>
    decreases list.len(),
{
    if list.len() == 0 {
        Seq::empty()
    } else {
        inserted_by(sorted_by(list.drop_last(), key), list.last(), key)
    }
}

/// Whether the keys of a list never fall.
pub open spec fn is_in_order<T>(list: Seq<T>, key: spec_fn(T) -> int) -> bool {
    forall|i: int, j: int|
        0 <= i <= j < list.len() ==> key(#[trigger] list[i]) <= key(#[trigger] list[j])
}

/// The items of a list with a given key.
pub open spec fn with_key<T>(list: Seq<T>, key: spec_fn(T) -> int, value: int) -> Seq<T> {
    list.filter(|item: T| key(item) == value)
}

/// What a function gives for the items of a list, in order, where it gives something.
pub open spec fn kept<T, U>(list: Seq<T>, f: spec_fn(T) -> Option<U>) -> Seq<U>
    decreases list.len(),
{
    if list.len() == 0 {
        Seq::empty()
    } else {
        match f(list.last()) {
            Some(item) => kept(list.drop_last(), f).push(item),
            None => kept(list.drop_last(), f),
        }
    }
}

/// An item goes before the items with a larger key at the end of a list.
pub proof fn lemma_inserted_at<T>(list: Seq<T>, item: T, key: spec_fn(T) -> int, place: int)
    requires
        0 <= place <= list.len(),
        place > 0 ==> key(list[place - 1]) <= key(item),
        forall|i: int| place <= i < list.len() ==> key(#[trigger] list[i]) > key(item),
    ensures
        inserted_by(list, item, key) == list.insert(place, item),
    decreases list.len(),
{
    if place == list.len() {
        assert(list.insert(place, item) =~= list.push(item));
    } else {
        assert(key(list[list.len() - 1]) > key(item));
        lemma_inserted_at(list.drop_last(), item, key, place);
        assert(list.insert(place, item) =~= list.drop_last().insert(place, item).push(list.last()));
    }
}

/// Where an item goes in a list.
pub open spec fn place_for<T>(list: Seq<T>, item: T, key: spec_fn(T) -> int) -> int
    decreases list.len(),
{
    if list.len() == 0 || key(list.last()) <= key(item) {
        list.len() as int
    } else {
        place_for(list.drop_last(), item, key)
    }
}

/// An item is inserted at its place.
pub proof fn lemma_place_for<T>(list: Seq<T>, item: T, key: spec_fn(T) -> int)
    ensures
        0 <= place_for(list, item, key) <= list.len(),
        inserted_by(list, item, key) == list.insert(place_for(list, item, key), item),
    decreases list.len(),
{
    let place = place_for(list, item, key);
    if list.len() == 0 || key(list.last()) <= key(item) {
        assert(list.insert(place, item) =~= list.push(item));
    } else {
        lemma_place_for(list.drop_last(), item, key);
        assert(list.insert(place, item) =~= list.drop_last().insert(place, item).push(list.last()));
    }
}

proof fn lemma_inserted_keeps_order<T>(list: Seq<T>, item: T, key: spec_fn(T) -> int)
    requires
        is_in_order(list, key),
    ensures
        is_in_order(inserted_by(list, item, key), key),
        forall|i: int|
            0 <= i < inserted_by(list, item, key).len() ==> key(
                #[trigger] inserted_by(list, item, key)[i],
            ) <= key(item) || (list.len() > 0 && key(inserted_by(list, item, key)[i]) <= key(
                list.last(),
            )),
    decreases list.len(),
{
    if list.len() == 0 || key(list.last()) <= key(item) {
        assert forall|i: int| 0 <= i < list.len() implies key(#[trigger] list[i]) <= key(item) by {
            assert(key(list[i]) <= key(list[list.len() - 1]));
        }
    } else {
        let shorter = list.drop_last();
        lemma_inserted_keeps_order(shorter, item, key);
        let middle = inserted_by(shorter, item, key);
        if shorter.len() > 0 {
            assert(key(list[shorter.len() - 1]) <= key(list[list.len() - 1]));
        }
        assert forall|i: int| 0 <= i < middle.len() implies key(#[trigger] middle[i]) <= key(
            list.last(),
        ) by {}
    }
}

/// Sorting puts a list in order.
pub proof fn law_sorted_list_is_in_order<T>(list: Seq<T>, key: spec_fn(T) -> int)
    ensures
        is_in_order(sorted_by(list, key), key),
    decreases list.len(),
{
    if list.len() > 0 {
        law_sorted_list_is_in_order(list.drop_last(), key);
        lemma_inserted_keeps_order(sorted_by(list.drop_last(), key), list.last(), key);
    }
}

proof fn lemma_inserted_multiset<T>(list: Seq<T>, item: T, key: spec_fn(T) -> int)
    ensures
        inserted_by(list, item, key).to_multiset() == list.to_multiset().insert(item),
    decreases list.len(),
{
    broadcast use vstd::seq_lib::group_to_multiset_ensures;

    if list.len() == 0 || key(list.last()) <= key(item) {
    } else {
        lemma_inserted_multiset(list.drop_last(), item, key);
        assert(list =~= list.drop_last().push(list.last()));
        assert(inserted_by(list, item, key).to_multiset() =~= list.to_multiset().insert(item));
    }
}

/// Sorting neither loses an item nor adds one.
pub proof fn law_sorting_keeps_the_items<T>(list: Seq<T>, key: spec_fn(T) -> int)
    ensures
        sorted_by(list, key).to_multiset() == list.to_multiset(),
        sorted_by(list, key).len() == list.len(),
    decreases list.len(),
{
    broadcast use vstd::seq_lib::group_to_multiset_ensures;

    if list.len() > 0 {
        law_sorting_keeps_the_items(list.drop_last(), key);
        lemma_inserted_multiset(sorted_by(list.drop_last(), key), list.last(), key);
        lemma_place_for(sorted_by(list.drop_last(), key), list.last(), key);
        assert(list =~= list.drop_last().push(list.last()));
    } else {
        assert(sorted_by(list, key) =~= list);
    }
}

proof fn lemma_with_key_push<T>(list: Seq<T>, item: T, key: spec_fn(T) -> int, value: int)
    ensures
        with_key(list.push(item), key, value) == (if key(item) == value {
            with_key(list, key, value).push(item)
        } else {
            with_key(list, key, value)
        }),
{
    reveal(Seq::filter);
    assert(list.push(item).drop_last() =~= list);
}

proof fn lemma_inserted_is_stable<T>(list: Seq<T>, item: T, key: spec_fn(T) -> int, value: int)
    ensures
        with_key(inserted_by(list, item, key), key, value) == with_key(list.push(item), key, value),
    decreases list.len(),
{
    if list.len() == 0 || key(list.last()) <= key(item) {
    } else {
        let shorter = list.drop_last();
        let last = list.last();
        lemma_inserted_is_stable(shorter, item, key, value);
        lemma_with_key_push(inserted_by(shorter, item, key), last, key, value);
        lemma_with_key_push(shorter, item, key, value);
        lemma_with_key_push(shorter, last, key, value);
        lemma_with_key_push(list, item, key, value);
        assert(list =~= shorter.push(last));
    }
}

/// Items with the same key keep the order that they had before sorting.
pub proof fn law_sorting_is_stable<T>(list: Seq<T>, key: spec_fn(T) -> int, value: int)
    ensures
        with_key(sorted_by(list, key), key, value) == with_key(list, key, value),
    decreases list.len(),
{
    if list.len() > 0 {
        let shorter = list.drop_last();
        let last = list.last();
        law_sorting_is_stable(shorter, key, value);
        lemma_inserted_is_stable(sorted_by(shorter, key), last, key, value);
        lemma_with_key_push(sorted_by(shorter, key), last, key, value);
        lemma_with_key_push(shorter, last, key, value);
        assert(list =~= shorter.push(last));
    } else {
        assert(sorted_by(list, key) =~= list);
    }
}

proof fn lemma_with_key_has<T>(list: Seq<T>, key: spec_fn(T) -> int, i: int)
    requires
        0 <= i < list.len(),
    ensures
        with_key(list, key, key(list[i])).len() > 0,
{
    list.lemma_filter_contains(|item: T| key(item) == key(list[i]), i);
}

proof fn lemma_key_is_found<T>(list: Seq<T>, key: spec_fn(T) -> int, value: int)
    requires
        with_key(list, key, value).len() > 0,
    ensures
        exists|i: int| 0 <= i < list.len() && key(#[trigger] list[i]) == value,
    decreases list.len(),
{
    reveal(Seq::filter);
    if list.len() > 0 {
        if key(list.last()) == value {
            assert(key(list[list.len() - 1]) == value);
        } else {
            lemma_key_is_found(list.drop_last(), key, value);
            let i = choose|i: int|
                0 <= i < list.drop_last().len() && key(#[trigger] list.drop_last()[i]) == value;
            assert(key(list[i]) == value);
        }
    }
}

/// Two lists in order are the same where they have the same items of each key in the same order.
pub proof fn law_stable_order_is_unique<T>(a: Seq<T>, b: Seq<T>, key: spec_fn(T) -> int)
    requires
        is_in_order(a, key),
        is_in_order(b, key),
        forall|value: int| #[trigger] with_key(a, key, value) == with_key(b, key, value),
    ensures
        a == b,
    decreases a.len(),
{
    if a.len() == 0 {
        if b.len() > 0 {
            lemma_with_key_has(b, key, 0);
            assert(with_key(a, key, key(b[0])) == with_key(b, key, key(b[0])));
            reveal(Seq::filter);
        }
        assert(a =~= b);
    } else {
        let last_a = a[a.len() - 1];
        lemma_with_key_has(a, key, a.len() - 1);
        assert(with_key(a, key, key(last_a)) == with_key(b, key, key(last_a)));
        lemma_key_is_found(b, key, key(last_a));
        let last_b = b[b.len() - 1];
        let i = choose|i: int| 0 <= i < b.len() && key(#[trigger] b[i]) == key(last_a);
        assert(key(b[i]) <= key(b[b.len() - 1]));
        lemma_with_key_has(b, key, b.len() - 1);
        assert(with_key(a, key, key(last_b)) == with_key(b, key, key(last_b)));
        lemma_key_is_found(a, key, key(last_b));
        let j = choose|j: int| 0 <= j < a.len() && key(#[trigger] a[j]) == key(last_b);
        assert(key(a[j]) <= key(a[a.len() - 1]));
        assert(key(last_a) == key(last_b));
        let short_a = a.drop_last();
        let short_b = b.drop_last();
        assert(a =~= short_a.push(last_a));
        assert(b =~= short_b.push(last_b));
        let value = key(last_a);
        lemma_with_key_push(short_a, last_a, key, value);
        lemma_with_key_push(short_b, last_b, key, value);
        assert(with_key(short_a, key, value).push(last_a).last() == last_a);
        assert(with_key(short_b, key, value).push(last_b).last() == last_b);
        assert(last_a == last_b);
        assert forall|other: int| #[trigger] with_key(short_a, key, other) == with_key(
            short_b,
            key,
            other,
        ) by {
            lemma_with_key_push(short_a, last_a, key, other);
            lemma_with_key_push(short_b, last_b, key, other);
            assert(with_key(a, key, other) == with_key(b, key, other));
            if other == value {
                assert(with_key(short_a, key, other).push(last_a).drop_last() =~= with_key(
                    short_a,
                    key,
                    other,
                ));
                assert(with_key(short_b, key, other).push(last_b).drop_last() =~= with_key(
                    short_b,
                    key,
                    other,
                ));
            }
        }
        assert(is_in_order(short_a, key)) by {
            assert(forall|k: int| 0 <= k < short_a.len() ==> #[trigger] short_a[k] == a[k]);
        }
        assert(is_in_order(short_b, key)) by {
            assert(forall|k: int| 0 <= k < short_b.len() ==> #[trigger] short_b[k] == b[k]);
        }
        law_stable_order_is_unique(short_a, short_b, key);
    }
}

/// Sorting two lists first makes no difference to sorting them together.
pub proof fn law_sorted_parts_sort_alike<T>(a: Seq<T>, b: Seq<T>, key: spec_fn(T) -> int)
    ensures
        sorted_by(sorted_by(a, key) + sorted_by(b, key), key) == sorted_by(a + b, key),
{
    let parts = sorted_by(a, key) + sorted_by(b, key);
    law_sorted_list_is_in_order(parts, key);
    law_sorted_list_is_in_order(a + b, key);
    assert forall|value: int| #[trigger] with_key(sorted_by(parts, key), key, value) == with_key(
        sorted_by(a + b, key),
        key,
        value,
    ) by {
        law_sorting_is_stable(parts, key, value);
        law_sorting_is_stable(a + b, key, value);
        law_sorting_is_stable(a, key, value);
        law_sorting_is_stable(b, key, value);
        let is = |item: T| key(item) == value;
        Seq::filter_distributes_over_add(a, b, is);
        Seq::filter_distributes_over_add(sorted_by(a, key), sorted_by(b, key), is);
    }
    law_stable_order_is_unique(sorted_by(parts, key), sorted_by(a + b, key), key);
}

/// What is kept of two lists joined is what is kept of the first, then of the second.
pub proof fn lemma_kept_concat<T, U>(a: Seq<T>, b: Seq<T>, f: spec_fn(T) -> Option<U>)
    ensures
        kept(a + b, f) == kept(a, f) + kept(b, f),
    decreases b.len(),
{
    if b.len() == 0 {
        assert(a + b =~= a);
        assert(kept(a, f) + kept(b, f) =~= kept(a, f));
    } else {
        lemma_kept_concat(a, b.drop_last(), f);
        assert((a + b).drop_last() =~= a + b.drop_last());
        assert(kept(a + b, f) =~= kept(a, f) + kept(b, f));
    }
}

proof fn lemma_kept_push<T, U>(list: Seq<T>, item: T, f: spec_fn(T) -> Option<U>)
    ensures
        kept(list.push(item), f) == (match f(item) {
            Some(u) => kept(list, f).push(u),
            None => kept(list, f),
        }),
{
    assert(list.push(item).drop_last() =~= list);
}

proof fn lemma_kept_keys_are_bounded<T, U>(
    list: Seq<T>,
    f: spec_fn(T) -> Option<U>,
    key: spec_fn(T) -> int,
    new_key: spec_fn(U) -> int,
    bound: int,
)
    requires
        forall|t: T| (#[trigger] f(t)) matches Some(u) ==> new_key(u) == key(t),
        forall|i: int| 0 <= i < list.len() ==> key(#[trigger] list[i]) <= bound,
    ensures
        forall|i: int| 0 <= i < kept(list, f).len() ==> new_key(#[trigger] kept(list, f)[i]) <= bound,
    decreases list.len(),
{
    if list.len() > 0 {
        assert(forall|i: int|
            0 <= i < list.drop_last().len() ==> #[trigger] list.drop_last()[i] == list[i]);
        lemma_kept_keys_are_bounded(list.drop_last(), f, key, new_key, bound);
        assert(key(list[list.len() - 1]) <= bound);
        let before = kept(list.drop_last(), f);
        assert forall|i: int| 0 <= i < kept(list, f).len() implies new_key(
            #[trigger] kept(list, f)[i],
        ) <= bound by {
            if i < before.len() {
                assert(kept(list, f)[i] == before[i]);
            } else {
                assert(f(list.last()) == Some(kept(list, f)[i]));
            }
        }
    }
}

proof fn lemma_kept_of_inserted<T, U>(
    list: Seq<T>,
    item: T,
    f: spec_fn(T) -> Option<U>,
    key: spec_fn(T) -> int,
    new_key: spec_fn(U) -> int,
)
    requires
        is_in_order(list, key),
        forall|t: T| (#[trigger] f(t)) matches Some(u) ==> new_key(u) == key(t),
    ensures
        kept(inserted_by(list, item, key), f) == (match f(item) {
            Some(u) => inserted_by(kept(list, f), u, new_key),
            None => kept(list, f),
        }),
    decreases list.len(),
{
    let answer = f(item);
    if list.len() == 0 || key(list.last()) <= key(item) {
        lemma_kept_push(list, item, f);
        if answer is Some {
            assert forall|i: int| 0 <= i < list.len() implies key(#[trigger] list[i]) <= key(item) by {
                assert(key(list[i]) <= key(list[list.len() - 1]));
            }
            lemma_kept_keys_are_bounded(list, f, key, new_key, key(item));
            let before = kept(list, f);
            if before.len() > 0 {
                assert(new_key(before[before.len() - 1]) <= key(item));
            }
        }
    } else {
        let shorter = list.drop_last();
        let last = list.last();
        assert(is_in_order(shorter, key)) by {
            assert(forall|k: int| 0 <= k < shorter.len() ==> #[trigger] shorter[k] == list[k]);
        }
        lemma_kept_of_inserted(shorter, item, f, key, new_key);
        lemma_kept_push(inserted_by(shorter, item, key), last, f);
        if f(last) is Some && answer is Some {
            let u = f(last)->0;
            assert(new_key(u) == key(last));
            assert(kept(list, f).drop_last() =~= kept(shorter, f));
        }
    }
}

/// It makes no difference whether a list is sorted before or after a function is applied to its items, as
/// long as what the function gives has the key of the item.
pub proof fn law_sorting_commutes_with_keeping<T, U>(
    list: Seq<T>,
    f: spec_fn(T) -> Option<U>,
    key: spec_fn(T) -> int,
    new_key: spec_fn(U) -> int,
)
    requires
        forall|t: T| (#[trigger] f(t)) matches Some(u) ==> new_key(u) == key(t),
    ensures
        kept(sorted_by(list, key), f) == sorted_by(kept(list, f), new_key),
    decreases list.len(),
{
    if list.len() > 0 {
        let shorter = list.drop_last();
        law_sorting_commutes_with_keeping(shorter, f, key, new_key);
        law_sorted_list_is_in_order(shorter, key);
        lemma_kept_of_inserted(sorted_by(shorter, key), list.last(), f, key, new_key);
        if f(list.last()) is Some {
            assert(kept(list, f).drop_last() =~= kept(shorter, f));
        }
    }
}

/// The items of two lists in pairs.
pub open spec fn zipped<T, U>(a: Seq<T>, b: Seq<U>) -> Seq<(T, U)> {
    Seq::new(a.len(), |i: int| (a[i], b[i]))
}

/// The key of a pair: that of its first item.
pub open spec fn first_key<T, U>(key: spec_fn(T) -> int) -> spec_fn((T, U)) -> int {
    |pair: (T, U)| key(pair.0)
}

/// A function that always gives something is applied to every item.
pub proof fn lemma_kept_of_all<T, U>(list: Seq<T>, f: spec_fn(T) -> U)
    ensures
        kept(list, |t: T| Some(f(t))) == list.map_values(f),
    decreases list.len(),
{
    if list.len() > 0 {
        lemma_kept_of_all(list.drop_last(), f);
        assert(list.map_values(f) =~= list.drop_last().map_values(f).push(f(list.last())));
    } else {
        assert(list.map_values(f) =~= Seq::empty());
    }
}

/// It makes no difference whether a list is sorted before or after its items are changed, as long as each
/// keeps its key.
pub proof fn law_sorting_commutes_with_mapping<T, U>(
    list: Seq<T>,
    f: spec_fn(T) -> U,
    key: spec_fn(T) -> int,
    new_key: spec_fn(U) -> int,
)
    requires
        forall|t: T| new_key(#[trigger] f(t)) == key(t),
    ensures
        sorted_by(list, key).map_values(f) == sorted_by(list.map_values(f), new_key),
{
    let g = |t: T| Some(f(t));
    assert forall|t: T| (#[trigger] g(t)) matches Some(u) ==> new_key(u) == key(t) by {
        assert(new_key(f(t)) == key(t));
    }
    law_sorting_commutes_with_keeping(list, g, key, new_key);
    lemma_kept_of_all(list, f);
    lemma_kept_of_all(sorted_by(list, key), f);
}

proof fn lemma_place_of_pair<T, U>(a: Seq<T>, b: Seq<U>, item: T, other: U, key: spec_fn(T) -> int)
    ensures
        place_for(zipped(a, b), (item, other), first_key(key)) == place_for(a, item, key),
    decreases a.len(),
{
    if a.len() > 0 {
        lemma_place_of_pair(a.drop_last(), b, item, other, key);
        assert(zipped(a, b).drop_last() =~= zipped(a.drop_last(), b));
    }
}

/// What stands beside the items of a sorted list can be put beside the items before they are sorted.
pub proof fn law_pairs_can_be_unsorted<T, U>(list: Seq<T>, beside: Seq<U>, key: spec_fn(T) -> int)
    requires
        beside.len() == list.len(),
    ensures
        exists|before: Seq<U>|
            before.len() == list.len() && sorted_by(#[trigger] zipped(list, before), first_key(key))
                == zipped(sorted_by(list, key), beside),
    decreases list.len(),
{
    if list.len() == 0 {
        assert(sorted_by(zipped(list, beside), first_key(key)) =~= zipped(
            sorted_by(list, key),
            beside,
        ));
    } else {
        let shorter = list.drop_last();
        let item = list.last();
        let sorted = sorted_by(shorter, key);
        let place = place_for(sorted, item, key);
        lemma_place_for(sorted, item, key);
        law_sorting_keeps_the_items(shorter, key);
        let fewer = beside.remove(place);
        law_pairs_can_be_unsorted(shorter, fewer, key);
        let start = choose|before: Seq<U>|
            before.len() == shorter.len() && sorted_by(
                #[trigger] zipped(shorter, before),
                first_key(key),
            ) == zipped(sorted_by(shorter, key), fewer);
        let before = start.push(beside[place]);
        assert(zipped(list, before).drop_last() =~= zipped(shorter, start));
        lemma_place_of_pair(sorted, fewer, item, beside[place], key);
        lemma_place_for(zipped(sorted, fewer), (item, beside[place]), first_key(key));
        assert(zipped(sorted, fewer).insert(place, (item, beside[place])) =~= zipped(
            sorted.insert(place, item),
            beside,
        ));
        assert(sorted_by(zipped(list, before), first_key(key)) == zipped(
            sorted_by(list, key),
            beside,
        ));
    }
}

/// The first items of sorted pairs are the first items, sorted.
pub proof fn law_sorted_pairs_have_sorted_items<T, U>(
    list: Seq<T>,
    beside: Seq<U>,
    key: spec_fn(T) -> int,
)
    requires
        beside.len() == list.len(),
    ensures
        ({
            let pairs = sorted_by(zipped(list, beside), first_key(key));
            pairs == zipped(sorted_by(list, key), pairs.map_values(|pair: (T, U)| pair.1))
        }),
{
    let first = |pair: (T, U)| pair.0;
    let pairs = sorted_by(zipped(list, beside), first_key(key));
    law_sorting_commutes_with_mapping(zipped(list, beside), first, first_key(key), key);
    assert(zipped(list, beside).map_values(first) =~= list);
    assert(pairs =~= zipped(sorted_by(list, key), pairs.map_values(|pair: (T, U)| pair.1))) by {
        assert(pairs.map_values(first) == sorted_by(list, key));
        assert forall|i: int| 0 <= i < pairs.len() implies #[trigger] pairs[i].0 == sorted_by(
            list,
            key,
        )[i] by {
            assert(pairs.map_values(first)[i] == pairs[i].0);
        }
    }
}

/// A sorted list holds the items that the list holds.
pub proof fn law_sorted_items_are_the_items<T>(list: Seq<T>, key: spec_fn(T) -> int, item: T)
    ensures
        sorted_by(list, key).contains(item) == list.contains(item),
{
    broadcast use vstd::seq_lib::group_to_multiset_ensures;

    law_sorting_keeps_the_items(list, key);
    assert(sorted_by(list, key).contains(item) == (sorted_by(list, key).to_multiset().count(item)
        > 0));
    assert(list.contains(item) == (list.to_multiset().count(item) > 0));
}

proof fn lemma_inserted_mapped_multiset<T, U>(
    list: Seq<T>,
    item: T,
    key: spec_fn(T) -> int,
    f: spec_fn(T) -> U,
)
    ensures
        inserted_by(list, item, key).map_values(f).to_multiset() == list.map_values(
            f,
        ).to_multiset().insert(f(item)),
    decreases list.len(),
{
    broadcast use vstd::seq_lib::group_to_multiset_ensures;

    if list.len() == 0 || key(list.last()) <= key(item) {
        assert(list.push(item).map_values(f) =~= list.map_values(f).push(f(item)));
    } else {
        let shorter = list.drop_last();
        lemma_inserted_mapped_multiset(shorter, item, key, f);
        assert(list.map_values(f) =~= shorter.map_values(f).push(f(list.last())));
        assert(inserted_by(list, item, key).map_values(f) =~= inserted_by(
            shorter,
            item,
            key,
        ).map_values(f).push(f(list.last())));
        assert(inserted_by(list, item, key).map_values(f).to_multiset() =~= list.map_values(
            f,
        ).to_multiset().insert(f(item)));
    }
}

/// Whatever is read off the items of a list, sorting neither loses one reading nor adds one.
pub proof fn law_sorting_keeps_what_is_read_off<T, U>(
    list: Seq<T>,
    key: spec_fn(T) -> int,
    f: spec_fn(T) -> U,
)
    ensures
        sorted_by(list, key).map_values(f).to_multiset() == list.map_values(f).to_multiset(),
    decreases list.len(),
{
    broadcast use vstd::seq_lib::group_to_multiset_ensures;

    if list.len() > 0 {
        let shorter = list.drop_last();
        law_sorting_keeps_what_is_read_off(shorter, key, f);
        lemma_inserted_mapped_multiset(sorted_by(shorter, key), list.last(), key, f);
        assert(list.map_values(f) =~= shorter.map_values(f).push(f(list.last())));
    } else {
        assert(sorted_by(list, key) =~= list);
    }
}

} // verus!
