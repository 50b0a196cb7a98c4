//! Sorting by text: stable for items under a key, without repetition for bare
//! texts.
use vstd::prelude::*;

use crate::lists::{views, views_push, Duplicate};
use crate::ordered::{
    ascending, get, put, put_keeps_order, put_then_get, slot, slot_is, slot_parts,
    text_order_is_strict_and_total, values, OrderedMap,
};
use crate::text::{text_before, text_less, texts, texts_push};

verus! {

/// Items under their keys as they are seen in contracts.
pub open spec fn pair_views<V: View>(items: Seq<(String, V)>) -> Seq<(Seq<char>, V::V)> {
    items.map_values(|item: (String, V)| (item.0@, item.1@))
}

/// No key stands before a smaller one.
pub open spec fn non_descending<W>(items: Seq<(Seq<char>, W)>) -> bool {
    forall|i: int, j: int|
        0 <= i < j < items.len() ==> !text_less(#[trigger] items[j].0, #[trigger] items[i].0)
}

/// The items in the order of their keys; those under equal keys stay in the
/// order in which they came.
pub open spec fn sorted<W>(items: Seq<(Seq<char>, W)>) -> Seq<(Seq<char>, W)>
    decreases items.len(),
{
    if items.len() == 0 {
        items
    } else {
        let rest = sorted(items.skip(1));
        rest.insert(slot(rest, items[0].0), items[0])
    }
}

/// Sorting yields the same items, in an order that never descends.
pub proof fn sorted_is_an_ordering<W>(items: Seq<(Seq<char>, W)>)
    ensures
        non_descending(sorted(items)),
        sorted(items).to_multiset() == items.to_multiset(),
        sorted(items).len() == items.len(),
    decreases items.len(),
{
    broadcast use vstd::seq_lib::group_to_multiset_ensures;

    if items.len() > 0 {
        let rest = sorted(items.skip(1));
        sorted_is_an_ordering(items.skip(1));
        let key = items[0].0;
        let at = slot(rest, key);
        slot_parts(rest, key);
        let after = sorted(items);
        assert forall|i: int, j: int| 0 <= i < j < after.len() implies !text_less(
            #[trigger] after[j].0,
            #[trigger] after[i].0,
        ) by {
            let left = after[i].0;
            let right = after[j].0;
            text_order_is_strict_and_total(right, left, right);
            text_order_is_strict_and_total(right, right, right);
            if j < at {
                assert(left == rest[i].0 && right == rest[j].0);
            } else if j == at {
                assert(left == rest[i].0 && right == key);
                assert(text_less(left, key));
            } else if i < at {
                assert(left == rest[i].0 && right == rest[j - 1].0);
            } else if i == at {
                assert(left == key && right == rest[j - 1].0);
                if at < j - 1 {
                    assert(!text_less(rest[j - 1].0, rest[at].0));
                    text_order_is_strict_and_total(rest[at].0, rest[j - 1].0, key);
                }
            } else {
                assert(left == rest[i - 1].0 && right == rest[j - 1].0);
            }
        }
        assert(items =~= seq![items[0]] + items.skip(1));
        assert(after =~= rest.take(at) + seq![items[0]] + rest.skip(at));
        assert(rest =~= rest.take(at) + rest.skip(at));
        vstd::seq_lib::lemma_multiset_commutative(rest.take(at), rest.skip(at));
        vstd::seq_lib::lemma_multiset_commutative(rest.take(at) + seq![items[0]], rest.skip(at));
        vstd::seq_lib::lemma_multiset_commutative(rest.take(at), seq![items[0]]);
        vstd::seq_lib::lemma_multiset_commutative(seq![items[0]], items.skip(1));
        assert(after.to_multiset() =~= items.to_multiset());
    }
}

/// Items under equal keys stay in the order in which they came: whatever held of
/// each of them and every later one still does.
pub proof fn sorting_is_stable<W>(
    items: Seq<(Seq<char>, W)>,
    before: spec_fn((Seq<char>, W), (Seq<char>, W)) -> bool,
)
    requires
        forall|i: int, j: int|
            0 <= i < j < items.len() && items[i].0 == items[j].0 ==> before(
                #[trigger] items[i],
                #[trigger] items[j],
            ),
    ensures
        forall|i: int, j: int|
            0 <= i < j < items.len() && sorted(items)[i].0 == sorted(items)[j].0 ==> before(
                #[trigger] sorted(items)[i],
                #[trigger] sorted(items)[j],
            ),
        sorted(items).len() == items.len(),
    decreases items.len(),
{
    broadcast use vstd::seq_lib::group_to_multiset_ensures;

    if items.len() > 0 {
        let tail = items.skip(1);
        let rest = sorted(tail);
        assert forall|i: int, j: int|
            0 <= i < j < tail.len() && tail[i].0 == tail[j].0 implies before(
            #[trigger] tail[i],
            #[trigger] tail[j],
        ) by {
            assert(tail[i] == items[i + 1] && tail[j] == items[j + 1]);
        }
        sorting_is_stable(tail, before);
        sorted_is_an_ordering(tail);
        let key = items[0].0;
        let at = slot(rest, key);
        slot_parts(rest, key);
        let after = sorted(items);
        assert forall|i: int, j: int|
            0 <= i < j < after.len() && after[i].0 == after[j].0 implies before(
            #[trigger] after[i],
            #[trigger] after[j],
        ) by {
            text_order_is_strict_and_total(key, key, key);
            if j < at {
                assert(after[i] == rest[i] && after[j] == rest[j]);
            } else if j == at {
                assert(after[i] == rest[i]);
                assert(text_less(rest[i].0, key));
            } else if i < at {
                assert(after[i] == rest[i] && after[j] == rest[j - 1]);
            } else if i == at {
                let item = rest[j - 1];
                assert(after[j] == item);
                assert(rest.contains(item));
                assert(rest.to_multiset().count(item) > 0);
                assert(tail.contains(item));
                let k = choose|k: int| 0 <= k < tail.len() && tail[k] == item;
                assert(items[k + 1] == item);
                assert(before(items[0], items[k + 1]));
            } else {
                assert(after[i] == rest[i - 1] && after[j] == rest[j - 1]);
            }
        }
    }
}

/// Lists that hold the same items, in whatever order, hold the same values.
pub proof fn values_of_equal_bags<W>(left: Seq<(Seq<char>, W)>, right: Seq<(Seq<char>, W)>)
    requires
        left.to_multiset() == right.to_multiset(),
    ensures
        values(left).to_multiset() == values(right).to_multiset(),
    decreases left.len(),
{
    broadcast use vstd::seq_lib::group_to_multiset_ensures;

    assert(left.len() == right.len()) by {
        assert(left.to_multiset().len() == left.len());
        assert(right.to_multiset().len() == right.len());
    }
    if left.len() > 0 {
        let item = left.last();
        assert(left.contains(item)) by {
            assert(left[left.len() - 1] == item);
        }
        assert(right.to_multiset().count(item) > 0);
        assert(right.contains(item));
        let at = choose|i: int| 0 <= i < right.len() && right[i] == item;
        let rest = right.remove(at);
        let most = left.drop_last();
        assert(left =~= most.push(item));
        assert(most.to_multiset() =~= left.to_multiset().remove(item));
        assert(rest.to_multiset() =~= right.to_multiset().remove(item));
        values_of_equal_bags(most, rest);
        assert(values(left) =~= values(most).push(item.1));
        assert(values(rest) =~= values(right).remove(at));
        assert(values(right)[at] == item.1);
        assert(values(right).to_multiset() =~= values(rest).to_multiset().insert(item.1));
    } else {
        assert(values(left) =~= Seq::empty());
        assert(values(right) =~= Seq::empty());
    }
}

/// An item more, wherever it is put, is one item more.
pub proof fn inserting_adds_one<A>(items: Seq<A>, at: int, item: A)
    requires
        0 <= at <= items.len(),
    ensures
        items.insert(at, item).to_multiset() == items.to_multiset().insert(item),
{
    broadcast use vstd::seq_lib::group_to_multiset_ensures;

    let head = items.take(at);
    let tail = items.skip(at);
    assert(items.insert(at, item) =~= head + seq![item] + tail);
    assert(items =~= head + tail);
    vstd::seq_lib::lemma_multiset_commutative(head + seq![item], tail);
    vstd::seq_lib::lemma_multiset_commutative(head, seq![item]);
    vstd::seq_lib::lemma_multiset_commutative(head, tail);
    assert(seq![item].to_multiset() =~= vstd::multiset::Multiset::empty().insert(item)) by {
        assert(seq![item] =~= Seq::empty().push(item));
    }
    assert(items.insert(at, item).to_multiset() =~= items.to_multiset().insert(item));
}

/// There is one ascending order of given items.
pub proof fn ascending_order_is_unique<W>(left: Seq<(Seq<char>, W)>, right: Seq<(Seq<char>, W)>)
    requires
        ascending(left),
        ascending(right),
        left.to_multiset() == right.to_multiset(),
    ensures
        left == right,
    decreases left.len(),
{
    broadcast use vstd::seq_lib::group_to_multiset_ensures;

    assert(left.len() == right.len()) by {
        assert(left.to_multiset().len() == left.len());
        assert(right.to_multiset().len() == right.len());
    }
    if left.len() > 0 {
        let a = left[0];
        let b = right[0];
        assert(left.contains(a) && right.contains(b));
        assert(right.to_multiset().count(a) > 0);
        assert(left.to_multiset().count(b) > 0);
        assert(right.contains(a) && left.contains(b));
        let j = choose|j: int| 0 <= j < right.len() && right[j] == a;
        let i = choose|i: int| 0 <= i < left.len() && left[i] == b;
        text_order_is_strict_and_total(a.0, b.0, a.0);
        text_order_is_strict_and_total(a.0, a.0, a.0);
        if j > 0 {
            assert(text_less(right[0].0, right[j].0));
            if i > 0 {
                assert(text_less(left[0].0, left[i].0));
            }
        }
        assert(a == b);
        let more = left.skip(1);
        let others = right.skip(1);
        assert(left =~= seq![a] + more);
        assert(right =~= seq![a] + others);
        vstd::seq_lib::lemma_multiset_commutative(seq![a], more);
        vstd::seq_lib::lemma_multiset_commutative(seq![a], others);
        assert(more.to_multiset() =~= others.to_multiset()) by {
            assert forall|item: (Seq<char>, W)| more.to_multiset().count(item)
                == others.to_multiset().count(item) by {
                assert(left.to_multiset().count(item) == seq![a].to_multiset().count(item)
                    + more.to_multiset().count(item));
                assert(right.to_multiset().count(item) == seq![a].to_multiset().count(item)
                    + others.to_multiset().count(item));
            }
        }
        assert forall|i: int, j: int| 0 <= i < j < more.len() implies text_less(
            #[trigger] more[i].0,
            #[trigger] more[j].0,
        ) by {
            assert(more[i] == left[i + 1] && more[j] == left[j + 1]);
        }
        assert forall|i: int, j: int| 0 <= i < j < others.len() implies text_less(
            #[trigger] others[i].0,
            #[trigger] others[j].0,
        ) by {
            assert(others[i] == right[i + 1] && others[j] == right[j + 1]);
        }
        ascending_order_is_unique(more, others);
    }
}

/// The slot of `key` in a list that never descends, found by halving.
fn slot_in<V: View>(items: &Vec<(String, V)>, key: &str) -> (at: usize)
    requires
        non_descending(pair_views(items@)),
    ensures
        at == slot(pair_views(items@), key@),
        at <= items@.len(),
{
    let mut low: usize = 0;
    let mut high: usize = items.len();
    let ghost all = pair_views(items@);
    while low < high
        invariant
            low <= high <= items@.len(),
            all == pair_views(items@),
            non_descending(all),
            forall|i: int| 0 <= i < low ==> text_less(#[trigger] all[i].0, key@),
            forall|i: int| high <= i < all.len() ==> !text_less(#[trigger] all[i].0, key@),
        decreases high - low,
    {
        let middle: usize = low + (high - low) / 2;
        let ghost pivot = all[middle as int].0;
        if text_before(items[middle].0.as_str(), key) {
            assert forall|i: int| 0 <= i < middle + 1 implies text_less(#[trigger] all[i].0, key@) by {
                if i < middle {
                    text_order_is_strict_and_total(all[i].0, pivot, key@);
                    text_order_is_strict_and_total(pivot, all[i].0, key@);
                }
            }
            low = middle + 1;
        } else {
            assert forall|i: int| middle <= i < all.len() implies !text_less(
                #[trigger] all[i].0,
                key@,
            ) by {
                if middle < i {
                    text_order_is_strict_and_total(all[i].0, pivot, key@);
                    text_order_is_strict_and_total(pivot, all[i].0, key@);
                }
            }
            high = middle;
        }
    }
    proof {
        slot_is(all, key@, low as int);
    }
    low
}

/// Sorts items by their keys. Items under equal keys keep their order.
pub fn sort_keyed<V: View>(items: Vec<(String, V)>) -> (result: Vec<(String, V)>)
    ensures
        pair_views(result@) == sorted(pair_views(items@)),
{
    let ghost all = pair_views(items@);
    let mut rest = items;
    let mut result: Vec<(String, V)> = Vec::new();
    proof {
        assert(all.skip(all.len() as int) =~= Seq::<(Seq<char>, V::V)>::empty());
        assert(pair_views(result@) =~= Seq::<(Seq<char>, V::V)>::empty());
        assert(all.take(all.len() as int) =~= all);
    }
    while rest.len() > 0
        invariant
            rest@.len() <= all.len(),
            pair_views(rest@) == all.take(rest@.len() as int),
            pair_views(result@) == sorted(all.skip(rest@.len() as int)),
        decreases rest@.len(),
    {
        let ghost count = rest@.len() as int;
        let ghost before = rest@;
        let ghost done = pair_views(result@);
        match rest.pop() {
            Some(item) => {
                proof {
                    sorted_is_an_ordering(all.skip(count));
                    let view = (item.0@, item.1@);
                    assert(pair_views(before)[count - 1] == view);
                    assert(all.take(count)[count - 1] == all[count - 1]);
                    assert(all.skip(count - 1)[0] == view);
                    assert(all.skip(count - 1).skip(1) =~= all.skip(count));
                    assert(pair_views(rest@) =~= all.take(count - 1)) by {
                        assert(pair_views(before).take(count - 1) =~= pair_views(rest@));
                    }
                }
                let at: usize = slot_in(&result, item.0.as_str());
                let ghost old_result = result@;
                result.insert(at, item);
                proof {
                    assert(pair_views(result@) =~= pair_views(old_result).insert(
                        at as int,
                        (item.0@, item.1@),
                    ));
                }
            },
            None => {},
        }
    }
    assert(all.skip(0) =~= all);
    result
}

/// The keys of a list of items.
pub open spec fn keys<W>(items: Seq<(Seq<char>, W)>) -> Seq<Seq<char>> {
    items.map_values(|item: (Seq<char>, W)| item.0)
}

/// The set of texts that `met` and `rest` hold together, as a map.
pub open spec fn met_from(met: Seq<(Seq<char>, bool)>, rest: Seq<Seq<char>>) -> Seq<
    (Seq<char>, bool),
>
    decreases rest.len(),
{
    if rest.len() == 0 {
        met
    } else {
        met_from(put(met, rest[0], true), rest.skip(1))
    }
}

/// The texts of a list in ascending order, each once.
pub open spec fn distinct(list: Seq<Seq<char>>) -> Seq<Seq<char>> {
    keys(met_from(Seq::empty(), list))
}

proof fn met_from_holds(met: Seq<(Seq<char>, bool)>, rest: Seq<Seq<char>>, text: Seq<char>)
    requires
        ascending(met),
    ensures
        ascending(met_from(met, rest)),
        get(met_from(met, rest), text) is Some <==> get(met, text) is Some || rest.contains(text),
    decreases rest.len(),
{
    if rest.len() > 0 {
        put_keeps_order(met, rest[0], true);
        put_then_get(met, rest[0], true, text);
        met_from_holds(put(met, rest[0], true), rest.skip(1), text);
        if rest.contains(text) && text != rest[0] {
            let i = choose|i: int| 0 <= i < rest.len() && rest[i] == text;
            assert(rest.skip(1)[i - 1] == text);
        }
        if rest.skip(1).contains(text) {
            let i = choose|i: int| 0 <= i < rest.skip(1).len() && rest.skip(1)[i] == text;
            assert(rest[i + 1] == text);
        }
        if text == rest[0] {
            assert(rest[0] == text);
        }
    }
}

/// The keys of an ascending map are those under which something stands.
pub proof fn keys_are_found<W>(items: Seq<(Seq<char>, W)>, key: Seq<char>)
    requires
        ascending(items),
    ensures
        keys(items).contains(key) <==> get(items, key) is Some,
{
    slot_parts(items, key);
    if keys(items).contains(key) {
        let i = choose|i: int| 0 <= i < keys(items).len() && keys(items)[i] == key;
        assert(items[i].0 == key);
        assert forall|k: int| 0 <= k < i implies text_less(#[trigger] items[k].0, key) by {
            assert(text_less(items[k].0, items[i].0));
        }
        text_order_is_strict_and_total(key, key, key);
        slot_is(items, key, i);
    }
    if get(items, key) is Some {
        assert(keys(items)[slot(items, key)] == key);
    }
}

/// `distinct` ascends strictly and holds exactly the texts of the list.
pub proof fn distinct_is_the_set(list: Seq<Seq<char>>, text: Seq<char>)
    ensures
        distinct(list).contains(text) <==> list.contains(text),
        forall|i: int, j: int|
            0 <= i < j < distinct(list).len() ==> text_less(
                #[trigger] distinct(list)[i],
                #[trigger] distinct(list)[j],
            ),
{
    let empty = Seq::<(Seq<char>, bool)>::empty();
    met_from_holds(empty, list, text);
    slot_parts(empty, text);
    let met = met_from(empty, list);
    keys_are_found(met, text);
    assert forall|i: int, j: int| 0 <= i < j < distinct(list).len() implies text_less(
        #[trigger] distinct(list)[i],
        #[trigger] distinct(list)[j],
    ) by {
        assert(text_less(met[i].0, met[j].0));
    }
}

/// The keys of a map, in order.
pub fn take_keys<V: View>(map: OrderedMap<V>) -> (result: Vec<String>)
    ensures
        texts(result@) == keys(map@),
{
    let ghost all = map@;
    let mut result: Vec<String> = Vec::new();
    let mut at: usize = 0;
    while at < map.items.len()
        invariant
            at <= map.items@.len(),
            all == map@,
            texts(result@) == keys(all).take(at as int),
        decreases map.items.len() - at,
    {
        let key = map.items[at].0.clone();
        proof {
            texts_push(result@, key);
            assert(keys(all).take(at as int + 1) =~= keys(all).take(at as int).push(key@));
        }
        result.push(key);
        at += 1;
    }
    assert(keys(all).take(at as int) =~= keys(all));
    result
}

/// The values of keyed items, in their order.
pub fn take_values<V: Duplicate>(items: &Vec<(String, V)>) -> (result: Vec<V>)
    ensures
        views(result@) == values(pair_views(items@)),
{
    let ghost all = values(pair_views(items@));
    let mut result: Vec<V> = Vec::new();
    let mut at: usize = 0;
    while at < items.len()
        invariant
            at <= items@.len(),
            all == values(pair_views(items@)),
            views(result@) == all.take(at as int),
        decreases items.len() - at,
    {
        let value = items[at].1.copy();
        proof {
            views_push(result@, value);
            assert(all[at as int] == value@);
            assert(all.take(at as int + 1) =~= all.take(at as int).push(value@));
        }
        result.push(value);
        at += 1;
    }
    assert(all.take(at as int) =~= all);
    result
}

/// The texts of a list in ascending order, each once.
pub fn sort_distinct(list: &Vec<String>) -> (result: Vec<String>)
    ensures
        texts(result@) == distinct(texts(list@)),
{
    let mut met: OrderedMap<bool> = OrderedMap::new();
    let mut at: usize = 0;
    let ghost all = texts(list@);
    assert(all.skip(0) =~= all);
    while at < list.len()
        invariant
            at <= list@.len(),
            all == texts(list@),
            met.well_formed(),
            met_from(Seq::empty(), all) == met_from(met@, all.skip(at as int)),
        decreases list.len() - at,
    {
        proof {
            assert(all.skip(at as int)[0] == list@[at as int]@);
            assert(all.skip(at as int).skip(1) =~= all.skip(at as int + 1));
        }
        met.insert(list[at].clone(), true);
        at += 1;
    }
    take_keys(met)
}

} // verus!
