//! Sorting, as an order in which to take the items of a list.

use vstd::prelude::*;
use vstd::relations::*;
use vstd::seq_lib::*;

use crate::order::{ranks, Rank};

verus! {

/// Values with a total order on what they show.
pub trait Ordered: View + Sized {
    /// The order: `le(a, b)` when `a` comes before `b` or is `b`.
    spec fn le() -> spec_fn(Self::V, Self::V) -> bool;

    /// The order is total.
    proof fn lemma_total()
        ensures
            total_ordering(Self::le()),
    ;

    /// Compares two values.
    fn compare(&self, other: &Self) -> (rank: Rank)
        ensures
            ranks(rank, self@, other@, Self::le()),
    ;
}

/// What each of `items` shows.
pub open spec fn shown<T: View>(items: Seq<T>) -> Seq<T::V> {
    items.map_values(|item: T| item@)
}

/// The order of the places in a list: by what is there, and by the places themselves where the
/// same is there.
pub open spec fn place_le<K>(keys: Seq<K>, le: spec_fn(K, K) -> bool) -> spec_fn(int, int) -> bool {
    |i: int, j: int|
        if keys[i] == keys[j] {
            i <= j
        } else {
            le(keys[i], keys[j])
        }
}

/// The places of a list in the order of what is there; places with the same keep their order.
pub open spec fn sorted_order<K>(keys: Seq<K>, le: spec_fn(K, K) -> bool) -> Seq<int> {
    Seq::new(keys.len(), |i: int| i).sort_by(place_le(keys, le))
}

/// The items of a list in the order of what they show, by `key`; those that show the same keep
/// their order.
pub open spec fn sorted_items<A, K>(
    items: Seq<A>,
    key: spec_fn(A) -> K,
    le: spec_fn(K, K) -> bool,
) -> Seq<A> {
    sorted_order(items.map_values(key), le).map_values(|i: int| items[i])
}

proof fn lemma_place_total<K>(keys: Seq<K>, le: spec_fn(K, K) -> bool)
    requires
        total_ordering(le),
    ensures
        total_ordering(place_le(keys, le)),
{
    let place = place_le(keys, le);
    assert forall|i: int, j: int, k: int| #[trigger] place(i, j) && #[trigger] place(
        j,
        k,
    ) implies place(i, k) by {
        if keys[i] != keys[j] && keys[j] != keys[k] {
            assert(le(keys[i], keys[j]) && le(keys[j], keys[k]));
            if keys[i] == keys[k] {
                assert(le(keys[j], keys[i]));
            }
        }
    }
    assert forall|i: int, j: int| #[trigger] place(i, j) && #[trigger] place(j, i) implies i
        == j by {
        if keys[i] != keys[j] {
            assert(le(keys[i], keys[j]) && le(keys[j], keys[i]));
        }
    }
    assert forall|i: int, j: int| #[trigger] place(i, j) || #[trigger] place(j, i) by {
        assert(le(keys[i], keys[j]) || le(keys[j], keys[i]));
    }
}

/// The order of a list takes each place once.
pub proof fn lemma_sorted_order<K>(keys: Seq<K>, le: spec_fn(K, K) -> bool)
    requires
        total_ordering(le),
    ensures
        sorted_order(keys, le).len() == keys.len(),
        sorted_order(keys, le).no_duplicates(),
        forall|i: int|
            0 <= i < keys.len() ==> 0 <= #[trigger] sorted_order(keys, le)[i] < keys.len(),
        forall|p: int| 0 <= p < keys.len() ==> #[trigger] sorted_order(keys, le).contains(p),
        forall|i: int, j: int|
            #![trigger sorted_order(keys, le)[i], sorted_order(keys, le)[j]]
            0 <= i <= j < keys.len() ==> le(
                keys[sorted_order(keys, le)[i]],
                keys[sorted_order(keys, le)[j]],
            ),
{
    broadcast use group_to_multiset_ensures;

    let places = Seq::new(keys.len(), |i: int| i);
    let order = sorted_order(keys, le);
    lemma_place_total(keys, le);
    places.lemma_sort_by_ensures(place_le(keys, le));
    assert(places.len() == places.to_multiset().len());
    assert(order.len() == order.to_multiset().len());
    assert forall|i: int| 0 <= i < order.len() implies 0 <= #[trigger] order[i] < keys.len() by {
        assert(order.contains(order[i]));
        assert(places.contains(order[i]));
    }
    assert forall|p: int| 0 <= p < keys.len() implies #[trigger] order.contains(p) by {
        assert(places[p] == p);
        assert(places.contains(p));
        assert(places.to_multiset().count(p) > 0);
        assert(order.to_multiset().count(p) > 0);
    }
    assert(places.no_duplicates());
    places.lemma_multiset_has_no_duplicates();
    assert(order.no_duplicates()) by {
        order.lemma_multiset_has_no_duplicates_conv();
    }
    let place = place_le(keys, le);
    assert forall|i: int, j: int|
        #![trigger order[i], order[j]]
        0 <= i <= j < keys.len() implies le(keys[order[i]], keys[order[j]]) by {
        assert(le(keys[order[i]], keys[order[i]]));
        if i < j {
            assert(place(order[i], order[j]));
        }
    }
}

/// The order of a list is sorted by what is there, and then by the places.
pub proof fn lemma_places_sorted<K>(keys: Seq<K>, le: spec_fn(K, K) -> bool)
    requires
        total_ordering(le),
    ensures
        sorted_by(sorted_order(keys, le), place_le(keys, le)),
{
    lemma_place_total(keys, le);
    Seq::new(keys.len(), |i: int| i).lemma_sort_by_ensures(place_le(keys, le));
}

/// Places as numbers.
spec fn numbers(places: Seq<usize>) -> Seq<int> {
    places.map_values(|p: usize| p as int)
}

/// Whether the item at `i` is to be taken before the one at `j`, or is it.
fn comes_first<T: Ordered>(items: &Vec<T>, i: usize, j: usize) -> (first: bool)
    requires
        i < items@.len(),
        j < items@.len(),
    ensures
        first == place_le(shown(items@), T::le())(i as int, j as int),
{
    proof {
        T::lemma_total();
    }
    assert(shown(items@)[i as int] == items@[i as int]@);
    assert(shown(items@)[j as int] == items@[j as int]@);
    match items[i].compare(&items[j]) {
        Rank::Below => true,
        Rank::Same => i <= j,
        Rank::Above => {
            let ghost le = T::le();
            assert(!(le(items@[i as int]@, items@[j as int]@)));
            false
        },
    }
}

/// Every one of `places` is a place in a list of `len` items.
spec fn within(places: Seq<usize>, len: nat) -> bool {
    forall|i: int| 0 <= i < places.len() ==> (#[trigger] places[i]) < len
}

/// Taking one more place from one of two lists keeps that the places taken are those of both.
proof fn lemma_push_left(taken: Seq<int>, left: Seq<int>, right: Seq<int>, next: int)
    requires
        taken.to_multiset() =~= left.to_multiset().add(right.to_multiset()),
    ensures
        taken.push(next).to_multiset() =~= left.push(next).to_multiset().add(right.to_multiset()),
        taken.push(next).to_multiset() =~= right.to_multiset().add(left.push(next).to_multiset()),
{
    broadcast use {group_to_multiset_ensures, vstd::multiset::group_multiset_axioms};

}

/// Merges two lists of places that are each in order.
fn merge<T: Ordered>(items: &Vec<T>, left: &Vec<usize>, right: &Vec<usize>) -> (merged: Vec<usize>)
    requires
        within(left@, items@.len()),
        within(right@, items@.len()),
        sorted_by(numbers(left@), place_le(shown(items@), T::le())),
        sorted_by(numbers(right@), place_le(shown(items@), T::le())),
    ensures
        within(merged@, items@.len()),
        sorted_by(numbers(merged@), place_le(shown(items@), T::le())),
        numbers(merged@).to_multiset() == numbers(left@).to_multiset().add(
            numbers(right@).to_multiset(),
        ),
{
    broadcast use {group_to_multiset_ensures, vstd::multiset::group_multiset_axioms};

    let ghost place = place_le(shown(items@), T::le());
    let ghost l = numbers(left@);
    let ghost r = numbers(right@);
    proof {
        T::lemma_total();
        lemma_place_total(shown(items@), T::le());
    }
    let mut merged: Vec<usize> = Vec::new();
    let mut i: usize = 0;
    let mut j: usize = 0;
    assert(numbers(merged@) =~= Seq::<int>::empty());
    assert(l.take(0) =~= Seq::<int>::empty());
    assert(r.take(0) =~= Seq::<int>::empty());
    assert(numbers(merged@).to_multiset() =~= l.take(0).to_multiset().add(
        r.take(0).to_multiset(),
    ));
    while i < left.len() || j < right.len()
        invariant
            i <= left@.len(),
            j <= right@.len(),
            place == place_le(shown(items@), T::le()),
            total_ordering(place),
            l == numbers(left@),
            r == numbers(right@),
            within(left@, items@.len()),
            within(right@, items@.len()),
            within(merged@, items@.len()),
            sorted_by(l, place),
            sorted_by(r, place),
            sorted_by(numbers(merged@), place),
            forall|k: int, m: int|
                0 <= k < merged@.len() && i <= m < l.len() ==> #[trigger] place(
                    numbers(merged@)[k],
                    l[m],
                ),
            forall|k: int, m: int|
                0 <= k < merged@.len() && j <= m < r.len() ==> #[trigger] place(
                    numbers(merged@)[k],
                    r[m],
                ),
            numbers(merged@).to_multiset() == l.take(i as int).to_multiset().add(
                r.take(j as int).to_multiset(),
            ),
        decreases left.len() - i + right.len() - j,
    {
        let from_left = j >= right.len() || (i < left.len() && comes_first(
            items,
            left[i],
            right[j],
        ));
        let ghost before = numbers(merged@);
        let next: usize = if from_left {
            left[i]
        } else {
            right[j]
        };
        merged.push(next);
        let ghost after = numbers(merged@);
        assert(after =~= before.push(next as int));
        assert(forall|k: int| 0 <= k < before.len() ==> #[trigger] after[k] == before[k]);
        proof {
            if from_left {
                assert(next as int == l[i as int]);
                assert(l.take(i + 1) =~= l.take(i as int).push(next as int));
                assert forall|m: int| i < m < l.len() implies #[trigger] place(
                    next as int,
                    l[m],
                ) by {
                    assert(place(l[i as int], l[m]));
                }
                assert forall|m: int| j <= m < r.len() implies #[trigger] place(
                    next as int,
                    r[m],
                ) by {
                    assert(place(next as int, r[j as int]));
                    if j < m {
                        assert(place(r[j as int], r[m]));
                    }
                }
                lemma_push_left(before, l.take(i as int), r.take(j as int), next as int);
            } else {
                assert(next as int == r[j as int]);
                assert(r.take(j + 1) =~= r.take(j as int).push(next as int));
                assert forall|m: int| j < m < r.len() implies #[trigger] place(
                    next as int,
                    r[m],
                ) by {
                    assert(place(r[j as int], r[m]));
                }
                assert forall|m: int| i <= m < l.len() implies #[trigger] place(
                    next as int,
                    l[m],
                ) by {
                    assert(place(l[i as int], next as int) || place(next as int, l[i as int]));
                    assert(place(next as int, l[i as int]));
                    if i < m {
                        assert(place(l[i as int], l[m]));
                    }
                }
                assert(before.to_multiset() =~= r.take(j as int).to_multiset().add(
                    l.take(i as int).to_multiset(),
                ));
                lemma_push_left(before, r.take(j as int), l.take(i as int), next as int);
            }
            assert(sorted_by(after, place)) by {
                assert forall|k: int, m: int| 0 <= k < m < after.len() implies #[trigger] place(
                    after[k],
                    after[m],
                ) by {
                    if m == after.len() - 1 {
                        if from_left {
                            assert(place(before[k], l[i as int]));
                        } else {
                            assert(place(before[k], r[j as int]));
                        }
                    } else {
                        assert(place(before[k], before[m]));
                    }
                }
            }
            assert forall|k: int, m: int|
                0 <= k < after.len() && (if from_left {
                    i + 1
                } else {
                    i as int
                }) <= m < l.len() implies #[trigger] place(after[k], l[m]) by {
                if k < before.len() {
                    assert(place(before[k], l[m]));
                } else {
                    assert(place(next as int, l[m]));
                }
            }
            assert forall|k: int, m: int|
                0 <= k < after.len() && (if from_left {
                    j as int
                } else {
                    j + 1
                }) <= m < r.len() implies #[trigger] place(after[k], r[m]) by {
                if k < before.len() {
                    assert(place(before[k], r[m]));
                } else {
                    assert(place(next as int, r[m]));
                }
            }
        }
        if from_left {
            i = i + 1;
        } else {
            j = j + 1;
        }
    }
    assert(l.take(l.len() as int) =~= l);
    assert(r.take(r.len() as int) =~= r);
    merged
}

/// Puts places in order.
fn sort_places<T: Ordered>(items: &Vec<T>, places: Vec<usize>) -> (sorted: Vec<usize>)
    requires
        within(places@, items@.len()),
    ensures
        within(sorted@, items@.len()),
        sorted_by(numbers(sorted@), place_le(shown(items@), T::le())),
        numbers(sorted@).to_multiset() == numbers(places@).to_multiset(),
    decreases places@.len(),
{
    let count: usize = places.len();
    if count <= 1 {
        return places;
    }
    let mut left = places;
    let right = left.split_off(count / 2);
    proof {
        assert(numbers(places@) =~= numbers(left@) + numbers(right@));
        lemma_multiset_commutative(numbers(left@), numbers(right@));
    }
    let left = sort_places(items, left);
    let right = sort_places(items, right);
    merge(items, &left, &right)
}

/// The order in which to take `items` so that what they show ascends; those that show the same
/// keep their order.
pub fn sort_order<T: Ordered>(items: &Vec<T>) -> (order: Vec<usize>)
    ensures
        order@.map_values(|p: usize| p as int) == sorted_order(shown(items@), T::le()),
{
    let mut places: Vec<usize> = Vec::new();
    for i in 0..items.len()
        invariant
            places@.len() == i,
            forall|k: int| 0 <= k < i ==> places@[k] == k,
    {
        places.push(i);
    }
    let order = sort_places(items, places);
    proof {
        let all = Seq::new(shown(items@).len(), |i: int| i);
        let place = place_le(shown(items@), T::le());
        T::lemma_total();
        lemma_place_total(shown(items@), T::le());
        assert(numbers(places@) =~= all);
        all.lemma_sort_by_ensures(place);
        lemma_sorted_unique(numbers(order@), all.sort_by(place), place);
    }
    order
}

/// Takes `items` in the given order.
fn take_in_order<T>(items: Vec<T>, order: &Vec<usize>) -> (taken: Vec<T>)
    requires
        order@.len() == items@.len(),
        within(order@, items@.len()),
        numbers(order@).no_duplicates(),
    ensures
        taken@ == numbers(order@).map_values(|p: int| items@[p]),
{
    let ghost all = items@;
    let count: usize = items.len();
    let mut rest = items;
    let mut slots: Vec<Option<T>> = Vec::new();
    while rest.len() > 0
        invariant
            count == all.len(),
            rest@ == all.take(rest@.len() as int),
            slots@.len() + rest@.len() == count,
            forall|k: int|
                0 <= k < slots@.len() ==> #[trigger] slots@[k] == Some(all[count - 1 - k]),
        decreases rest@.len(),
    {
        slots.push(rest.pop());
    }
    let mut taken: Vec<T> = Vec::new();
    for i in 0..order.len()
        invariant
            count == all.len(),
            order@.len() == count,
            within(order@, all.len()),
            numbers(order@).no_duplicates(),
            slots@.len() == count,
            taken@.len() == i,
            forall|k: int| 0 <= k < i ==> #[trigger] taken@[k] == all[order@[k] as int],
            forall|k: int|
                i <= k < count ==> slots@[count - 1 - #[trigger] order@[k]] == Some(
                    all[order@[k] as int],
                ),
    {
        let at: usize = count - 1 - order[i];
        assert(slots@[at as int] == Some(all[order@[i as int] as int]));
        let item = slots[at].take();
        proof {
            let places = numbers(order@);
            assert forall|k: int| i + 1 <= k < count implies slots@[count - 1
                - #[trigger] order@[k]] == Some(all[order@[k] as int]) by {
                assert(places[k] != places[i as int]);
            }
        }
        match item {
            Some(item) => {
                taken.push(item);
            },
            None => {
                assert(false);
            },
        }
    }
    assert(taken@ =~= numbers(order@).map_values(|p: int| all[p]));
    taken
}

/// Sorts `items`, each by what the key at the same place shows; those with the same keep their
/// order.
pub fn sort_by_keys<K: Ordered, T>(keys: &Vec<K>, items: Vec<T>) -> (sorted: Vec<T>)
    requires
        keys@.len() == items@.len(),
    ensures
        sorted@ == sorted_order(shown(keys@), K::le()).map_values(|i: int| items@[i]),
{
    let order = sort_order(keys);
    proof {
        K::lemma_total();
        lemma_sorted_order(shown(keys@), K::le());
        let places = sorted_order(shown(keys@), K::le());
        assert(numbers(order@) == places);
        assert(forall|i: int| 0 <= i < order@.len() ==> (#[trigger] order@[i]) as int == places[i]);
    }
    take_in_order(items, &order)
}

} // verus!
