//! Stable ascending arrangement of items by an integer key.

use std::collections::HashMap;
use vstd::prelude::*;

verus! {

broadcast use {vstd::group_vstd_default, vstd::std_specs::hash::group_hash_axioms};

/// Whether the item at position `first` comes before the item at position `second` when the
/// items are arranged by ascending key and items with equal keys keep their order.
pub open spec fn comes_before(keys: Seq<usize>, first: usize, second: usize) -> bool {
    keys[first as int] < keys[second as int] || (keys[first as int] == keys[second as int] && first
        < second)
}

/// Whether a position occurs in a list of positions.
pub open spec fn lists(order: Seq<usize>, position: nat) -> bool {
    exists|i: int| 0 <= i < order.len() && order[i] == position
}

/// Whether `order` lists the first `count` positions of `keys`, each once, by ascending key,
/// positions with equal keys in ascending order.
pub open spec fn arranges_first(keys: Seq<usize>, count: nat, order: Seq<usize>) -> bool {
    &&& count <= keys.len()
    &&& order.len() == count
    &&& forall|i: int| 0 <= i < order.len() ==> order[i] < count
    &&& forall|i: int, j: int|
        0 <= i < j < order.len() ==> comes_before(keys, #[trigger] order[i], #[trigger] order[j])
    &&& forall|position: nat| position < count ==> #[trigger] lists(order, position)
}

/// Whether `order` lists all positions of `keys`, each once, by ascending key, positions with
/// equal keys in ascending order.
pub open spec fn is_stable_order(keys: Seq<usize>, order: Seq<usize>) -> bool {
    arranges_first(keys, keys.len(), order)
}

/// The positions of `keys` by ascending key, positions with equal keys in ascending order.
pub open spec fn stable_order(keys: Seq<usize>) -> Seq<usize> {
    choose|order: Seq<usize>| is_stable_order(keys, order)
}

/// The items in the order that a list of positions gives.
pub open spec fn arranged<T>(items: Seq<T>, order: Seq<usize>) -> Seq<T> {
    Seq::new(order.len(), |i: int| items[order[i] as int])
}

/// There is only one stable order of a list of keys.
pub proof fn lemma_stable_order_is_unique(keys: Seq<usize>, first: Seq<usize>, second: Seq<usize>)
    requires
        is_stable_order(keys, first),
        is_stable_order(keys, second),
    ensures
        first == second,
{
    assert forall|i: int| 0 <= i < first.len() implies first[i] == second[i] by {
        lemma_stable_orders_agree(keys, first, second, i);
    }
    assert(first =~= second);
}

proof fn lemma_stable_orders_agree(keys: Seq<usize>, first: Seq<usize>, second: Seq<usize>, at: int)
    requires
        is_stable_order(keys, first),
        is_stable_order(keys, second),
        0 <= at < first.len(),
    ensures
        first[at] == second[at],
    decreases at,
{
    assert forall|i: int| 0 <= i < at implies first[i] == second[i] by {
        lemma_stable_orders_agree(keys, first, second, i);
    }
    lemma_listed_item_is_not_earlier(keys, first, second, at);
    lemma_listed_item_is_not_earlier(keys, second, first, at);
}

proof fn lemma_listed_item_is_not_earlier(
    keys: Seq<usize>,
    first: Seq<usize>,
    second: Seq<usize>,
    at: int,
)
    requires
        is_stable_order(keys, first),
        is_stable_order(keys, second),
        0 <= at < first.len(),
        forall|i: int| 0 <= i < at ==> first[i] == second[i],
    ensures
        !comes_before(keys, first[at], second[at]),
{
    let item = first[at];
    assert(lists(second, item as nat));
    let found = choose|i: int| 0 <= i < second.len() && second[i] == item as nat;
    assert(second[found] == item);
    if found < at {
        assert(first[found] == second[found]);
        assert(comes_before(keys, first[found], first[at]));
    } else if found > at {
        assert(comes_before(keys, second[at], second[found]));
    }
}

/// The positions of the keys by ascending key, positions with equal keys in ascending order.
pub fn sorted_positions(keys: &Vec<usize>) -> (order: Vec<usize>)
    ensures
        is_stable_order(keys@, order@),
        order@ == stable_order(keys@),
{
    let mut order: Vec<usize> = Vec::new();
    let mut next: usize = 0;
    while next < keys.len()
        invariant
            next <= keys.len(),
            arranges_first(keys@, next as nat, order@),
        decreases keys.len() - next,
    {
        let key = keys[next];
        let mut slot: usize = order.len();
        while slot > 0 && keys[order[slot - 1]] > key
            invariant
                slot <= order.len(),
                next < keys.len(),
                key == keys[next as int],
                arranges_first(keys@, next as nat, order@),
                forall|j: int| slot <= j < order.len() ==> keys[order[j] as int] > key,
            decreases slot,
        {
            slot = slot - 1;
        }
        let ghost before = order@;
        order.insert(slot, next);
        proof {
            let after = order@;
            assert(after.len() == before.len() + 1);
            assert forall|i: int| 0 <= i < after.len() implies after[i] == (if i < slot {
                before[i]
            } else if i == slot {
                next
            } else {
                before[i - 1]
            }) by {}
            assert forall|i: int, j: int| 0 <= i < j < after.len() implies comes_before(
                keys@,
                #[trigger] after[i],
                #[trigger] after[j],
            ) by {
                if j < slot {
                    assert(comes_before(keys@, before[i], before[j]));
                } else if j == slot {
                    if i < slot - 1 {
                        assert(comes_before(keys@, before[i], before[slot - 1]));
                    }
                    assert(before[i] < next);
                } else if i < slot {
                    assert(comes_before(keys@, before[i], before[j - 1]));
                } else if i == slot {
                    assert(keys[before[j - 1] as int] > key);
                } else {
                    assert(comes_before(keys@, before[i - 1], before[j - 1]));
                }
            }
            assert forall|position: nat| position < next + 1 implies #[trigger] lists(
                after,
                position,
            ) by {
                if position == next {
                    assert(after[slot as int] == position);
                } else {
                    assert(lists(before, position));
                    let i = choose|i: int| 0 <= i < before.len() && before[i] == position;
                    if i < slot {
                        assert(after[i] == position);
                    } else {
                        assert(after[i + 1] == position);
                    }
                }
            }
        }
        next = next + 1;
    }
    proof {
        assert(is_stable_order(keys@, order@));
        lemma_stable_order_is_unique(keys@, order@, stable_order(keys@));
    }
    order
}

/// Whether every number in the list is smaller than the numbers after it.
pub open spec fn strictly_ascending(list: Seq<usize>) -> bool {
    forall|i: int, j: int| 0 <= i < j < list.len() ==> list[i] < list[j]
}

/// The numbers in ascending order, equal numbers in the order in which they came.
pub fn sorted_numbers(numbers: &Vec<usize>) -> (sorted: Vec<usize>)
    ensures
        sorted@ == arranged(numbers@, stable_order(numbers@)),
{
    let order = sorted_positions(numbers);
    let mut sorted: Vec<usize> = Vec::new();
    let mut position: usize = 0;
    while position < order.len()
        invariant
            position <= order.len(),
            is_stable_order(numbers@, order@),
            sorted.len() == position,
            forall|i: int| 0 <= i < position ==> sorted[i] == numbers[order[i] as int],
        decreases order.len() - position,
    {
        sorted.push(numbers[order[position]]);
        position = position + 1;
    }
    assert(sorted@ =~= arranged(numbers@, order@));
    sorted
}

/// The stable arrangement of numbers is ascending.
pub proof fn lemma_arranged_numbers_ascend(numbers: Seq<usize>)
    requires
        numbers.len() <= usize::MAX,
    ensures
        arranged(numbers, stable_order(numbers)).len() == numbers.len(),
        forall|i: int, j: int|
            0 <= i < j < numbers.len() ==> arranged(numbers, stable_order(numbers))[i] <= arranged(
                numbers,
                stable_order(numbers),
            )[j],
{
    lemma_stable_order_exists(numbers);
    let order = stable_order(numbers);
    let sorted = arranged(numbers, order);
    assert forall|i: int, j: int| 0 <= i < j < numbers.len() implies sorted[i] <= sorted[j] by {
        assert(comes_before(numbers, order[i], order[j]));
    }
}

/// The stable arrangement of numbers without repetition is strictly ascending and holds
/// the same numbers.
pub proof fn lemma_arranged_distinct_numbers(numbers: Seq<usize>)
    requires
        numbers.len() <= usize::MAX,
        numbers.no_duplicates(),
    ensures
        strictly_ascending(arranged(numbers, stable_order(numbers))),
        forall|number: usize|
            numbers.contains(number) <==> arranged(numbers, stable_order(numbers)).contains(number),
{
    lemma_stable_order_exists(numbers);
    let order = stable_order(numbers);
    let sorted = arranged(numbers, order);
    assert forall|i: int, j: int| 0 <= i < j < sorted.len() implies sorted[i] < sorted[j] by {
        assert(comes_before(numbers, order[i], order[j]));
    }
    assert forall|number: usize| numbers.contains(number) implies sorted.contains(number) by {
        let position = choose|position: int|
            0 <= position < numbers.len() && numbers[position] == number;
        assert(lists(order, position as nat));
        let i = choose|i: int| 0 <= i < order.len() && order[i] == position as nat;
        assert(sorted[i] == number);
    }
    assert forall|number: usize| sorted.contains(number) implies numbers.contains(number) by {
        let i = choose|i: int| 0 <= i < sorted.len() && sorted[i] == number;
        assert(numbers[order[i] as int] == number);
    }
}

/// Every list of keys has a stable order.
pub proof fn lemma_stable_order_exists(keys: Seq<usize>)
    requires
        keys.len() <= usize::MAX,
    ensures
        is_stable_order(keys, stable_order(keys)),
{
    lemma_arrangement_exists(keys, keys.len());
    let order = choose|order: Seq<usize>| arranges_first(keys, keys.len(), order);
    assert(is_stable_order(keys, order));
}

proof fn lemma_arrangement_exists(keys: Seq<usize>, count: nat)
    requires
        count <= keys.len() <= usize::MAX,
    ensures
        exists|order: Seq<usize>| arranges_first(keys, count, order),
    decreases count,
{
    if count == 0 {
        assert(arranges_first(keys, 0, Seq::<usize>::empty()));
    } else {
        let next = (count - 1) as usize;
        lemma_arrangement_exists(keys, next as nat);
        let before = choose|order: Seq<usize>| arranges_first(keys, next as nat, order);
        let slot = first_later_slot(keys, before, next, 0);
        lemma_first_later_slot(keys, before, next, 0);
        let after = before.insert(slot, next);
        assert forall|i: int, j: int| 0 <= i < j < after.len() implies comes_before(
            keys,
            #[trigger] after[i],
            #[trigger] after[j],
        ) by {
            if j < slot {
                assert(comes_before(keys, before[i], before[j]));
            } else if j == slot {
                assert(!comes_before(keys, next, before[i]));
                assert(before[i] < next);
            } else if i < slot {
                assert(comes_before(keys, before[i], before[j - 1]));
            } else if i == slot {
                assert(comes_before(keys, before[slot], before[j - 1]) || slot == j - 1);
            } else {
                assert(comes_before(keys, before[i - 1], before[j - 1]));
            }
        }
        assert forall|position: nat| position < count implies #[trigger] lists(
            after,
            position,
        ) by {
            if position == next {
                assert(after[slot] == position);
            } else {
                assert(lists(before, position));
                let i = choose|i: int| 0 <= i < before.len() && before[i] == position;
                if i < slot {
                    assert(after[i] == position);
                } else {
                    assert(after[i + 1] == position);
                }
            }
        }
        assert(arranges_first(keys, count, after));
    }
}

/// The first slot at or after `from` whose item comes after the item at position `next`.
spec fn first_later_slot(keys: Seq<usize>, order: Seq<usize>, next: usize, from: int) -> int
    decreases order.len() - from,
{
    if from < 0 || from >= order.len() || comes_before(keys, next, order[from]) {
        from
    } else {
        first_later_slot(keys, order, next, from + 1)
    }
}

proof fn lemma_first_later_slot(keys: Seq<usize>, order: Seq<usize>, next: usize, from: int)
    requires
        0 <= from <= order.len(),
    ensures
        from <= first_later_slot(keys, order, next, from) <= order.len(),
        forall|i: int|
            from <= i < first_later_slot(keys, order, next, from) ==> !comes_before(
                keys,
                next,
                order[i],
            ),
        first_later_slot(keys, order, next, from) < order.len() ==> comes_before(
            keys,
            next,
            order[first_later_slot(keys, order, next, from)],
        ),
    decreases order.len() - from,
{
    if from < order.len() && !comes_before(keys, next, order[from]) {
        lemma_first_later_slot(keys, order, next, from + 1);
    }
}

/// The keys of a map in ascending order.
pub fn ascending_keys<V>(map: &HashMap<usize, V>) -> (keys: Vec<usize>)
    ensures
        strictly_ascending(keys@),
        forall|key: usize| map@.contains_key(key) <==> keys@.contains(key),
{
    let mut found: Vec<usize> = Vec::new();
    for key in iter: map.keys()
        invariant
            iter.seq().unref().to_set() == map@.dom(),
            iter.seq().no_duplicates(),
            iter.seq().len() == map@.dom().len(),
            found.len() == iter.index(),
            forall|i: int| 0 <= i < found.len() ==> found[i] == *iter.seq()[i],
            forall|i: int| 0 <= i < found.len() ==> map@.contains_key(#[trigger] found[i]),
    {
        proof {
            assert(iter.seq().unref()[iter.index()] == *key);
            assert(iter.seq().unref().to_set().contains(*key));
        }
        found.push(*key);
    }
    proof {
        assert forall|i: int, j: int| 0 <= i < j < found.len() implies found[i] != found[j] by {}
        assert(found@.no_duplicates());
        found@.unique_seq_to_set();
        assert(found@.to_set().subset_of(map@.dom())) by {
            assert forall|key: usize| found@.to_set().contains(key) implies map@.dom().contains(
                key,
            ) by {
                let i = choose|i: int| 0 <= i < found.len() && found[i] == key;
                assert(map@.contains_key(found[i]));
            }
        }
        vstd::set_lib::lemma_subset_equality(found@.to_set(), map@.dom());
        lemma_arranged_distinct_numbers(found@);
        assert forall|key: usize| map@.contains_key(key) <==> found@.contains(key) by {
            assert(found@.to_set().contains(key) <==> found@.contains(key));
        }
    }
    let keys = sorted_numbers(&found);
    keys
}

} // verus!
