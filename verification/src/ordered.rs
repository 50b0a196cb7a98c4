//! Maps keyed by text that are walked in the byte order of their keys.
use vstd::prelude::*;
use vstd::utf8::{encode_utf8, encode_utf8_decode_utf8};

use crate::text::{bytes_less, same_text, text_before, text_less, texts};

verus! {

/// The items of a map in the order of its keys.
#[derive(Debug, Clone, PartialEq, Eq)]
pub struct OrderedMap<V> {
    pub items: Vec<(String, V)>,
}

/// The keys stand in strictly ascending order.
pub open spec fn ascending<W>(items: Seq<(Seq<char>, W)>) -> bool {
    forall|i: int, j: int|
        0 <= i < j < items.len() ==> text_less(#[trigger] items[i].0, #[trigger] items[j].0)
}

/// How many leading keys stand before `key`.
pub open spec fn slot<W>(items: Seq<(Seq<char>, W)>, key: Seq<char>) -> int
    decreases items.len(),
{
    if items.len() == 0 || !text_less(items[0].0, key) {
        0
    } else {
        1 + slot(items.skip(1), key)
    }
}

/// The value that stands under `key`.
pub open spec fn get<W>(items: Seq<(Seq<char>, W)>, key: Seq<char>) -> Option<W> {
    let at = slot(items, key);
    if at < items.len() && items[at].0 == key {
        Some(items[at].1)
    } else {
        None
    }
}

/// The items once `value` stands under `key`.
pub open spec fn put<W>(items: Seq<(Seq<char>, W)>, key: Seq<char>, value: W) -> Seq<
    (Seq<char>, W),
> {
    let at = slot(items, key);
    if at < items.len() && items[at].0 == key {
        items.update(at, (key, value))
    } else {
        items.insert(at, (key, value))
    }
}

/// The values in the order of their keys.
pub open spec fn values<W>(items: Seq<(Seq<char>, W)>) -> Seq<W> {
    items.map_values(|item: (Seq<char>, W)| item.1)
}

pub proof fn bytes_order_irreflexive(bytes: Seq<u8>)
    ensures
        !bytes_less(bytes, bytes),
    decreases bytes.len(),
{
    if bytes.len() > 0 {
        bytes_order_irreflexive(bytes.drop_first());
    }
}

pub proof fn bytes_order_transitive(a: Seq<u8>, b: Seq<u8>, c: Seq<u8>)
    requires
        bytes_less(a, b),
        bytes_less(b, c),
    ensures
        bytes_less(a, c),
    decreases a.len(),
{
    if a.len() > 0 && a[0] == b[0] && b[0] == c[0] {
        bytes_order_transitive(a.drop_first(), b.drop_first(), c.drop_first());
    }
}

pub proof fn bytes_order_total(a: Seq<u8>, b: Seq<u8>)
    ensures
        bytes_less(a, b) || bytes_less(b, a) || a == b,
    decreases a.len(),
{
    if a.len() > 0 && b.len() > 0 && a[0] == b[0] {
        bytes_order_total(a.drop_first(), b.drop_first());
        if a.drop_first() == b.drop_first() {
            assert(a == seq![a[0]] + a.drop_first());
            assert(b == seq![b[0]] + b.drop_first());
        }
    } else if a.len() == 0 && b.len() == 0 {
        assert(a == b);
    }
}

/// The order of texts is a strict total order.
pub proof fn text_order_is_strict_and_total(a: Seq<char>, b: Seq<char>, c: Seq<char>)
    ensures
        !text_less(a, a),
        text_less(a, b) && text_less(b, c) ==> text_less(a, c),
        text_less(a, b) || text_less(b, a) || a == b,
{
    bytes_order_irreflexive(encode_utf8(a));
    if text_less(a, b) && text_less(b, c) {
        bytes_order_transitive(encode_utf8(a), encode_utf8(b), encode_utf8(c));
    }
    bytes_order_total(encode_utf8(a), encode_utf8(b));
    encode_utf8_decode_utf8(a);
    encode_utf8_decode_utf8(b);
}

/// In ascending items, `at` is the slot of `key` when it parts the keys before
/// `key` from the others.
pub proof fn slot_is<W>(items: Seq<(Seq<char>, W)>, key: Seq<char>, at: int)
    requires
        0 <= at <= items.len(),
        forall|i: int| 0 <= i < at ==> text_less(#[trigger] items[i].0, key),
        at < items.len() ==> !text_less(items[at].0, key),
    ensures
        slot(items, key) == at,
    decreases items.len(),
{
    if at > 0 {
        assert(text_less(items[0].0, key));
        let rest = items.skip(1);
        assert forall|i: int| 0 <= i < at - 1 implies text_less(#[trigger] rest[i].0, key) by {
            assert(rest[i] == items[i + 1]);
        }
        if at < items.len() {
            assert(rest[at - 1] == items[at]);
        }
        slot_is(rest, key, at - 1);
    }
}

/// The slot lies within the items and parts them.
pub proof fn slot_parts<W>(items: Seq<(Seq<char>, W)>, key: Seq<char>)
    ensures
        0 <= slot(items, key) <= items.len(),
        forall|i: int| 0 <= i < slot(items, key) ==> text_less(#[trigger] items[i].0, key),
        slot(items, key) < items.len() ==> !text_less(items[slot(items, key)].0, key),
    decreases items.len(),
{
    if items.len() > 0 && text_less(items[0].0, key) {
        let rest = items.skip(1);
        slot_parts(rest, key);
        let at = slot(items, key);
        assert forall|i: int| 0 <= i < at implies text_less(#[trigger] items[i].0, key) by {
            if i > 0 {
                assert(rest[i - 1] == items[i]);
            }
        }
        if at < items.len() {
            assert(rest[at - 1] == items[at]);
        }
    }
}

/// Putting keeps the keys ascending.
pub proof fn put_keeps_order<W>(items: Seq<(Seq<char>, W)>, key: Seq<char>, value: W)
    requires
        ascending(items),
    ensures
        ascending(put(items, key, value)),
{
    let after = put(items, key, value);
    let at = slot(items, key);
    slot_parts(items, key);
    assert forall|i: int, j: int| 0 <= i < j < after.len() implies text_less(
        #[trigger] after[i].0,
        #[trigger] after[j].0,
    ) by {
        if at < items.len() && items[at].0 == key {
            assert(after[i].0 == items[i].0);
            assert(after[j].0 == items[j].0);
        } else {
            if at < items.len() {
                text_order_is_strict_and_total(items[at].0, key, key);
            }
            if j < at {
                assert(after[i] == items[i] && after[j] == items[j]);
            } else if j == at {
                assert(after[i] == items[i]);
            } else {
                assert(after[j] == items[j - 1]);
                if i == at {
                    if j - 1 > at {
                        text_order_is_strict_and_total(key, items[at].0, items[j - 1].0);
                    }
                } else if i < at {
                    assert(after[i] == items[i]);
                } else {
                    assert(after[i] == items[i - 1]);
                }
            }
        }
    }
}

/// What was put under a key is found there, and every other key keeps its
/// value.
pub proof fn put_then_get<W>(items: Seq<(Seq<char>, W)>, key: Seq<char>, value: W, other: Seq<char>)
    requires
        ascending(items),
    ensures
        get(put(items, key, value), key) == Some(value),
        other != key ==> get(put(items, key, value), other) == get(items, other),
{
    let after = put(items, key, value);
    let at = slot(items, key);
    slot_parts(items, key);
    text_order_is_strict_and_total(key, key, key);
    let found = at < items.len() && items[at].0 == key;
    assert forall|i: int| 0 <= i < at implies text_less(#[trigger] after[i].0, key) by {
        assert(after[i].0 == items[i].0);
    }
    slot_is(after, key, at);
    if other != key {
        let place = slot(items, other);
        slot_parts(items, other);
        if found {
            assert forall|i: int| 0 <= i < place implies text_less(#[trigger] after[i].0, other) by {
                assert(after[i].0 == items[i].0);
            }
            slot_is(after, other, place);
        } else {
            text_order_is_strict_and_total(key, other, other);
            text_order_is_strict_and_total(other, key, key);
            if text_less(key, other) {
                // every key before `key` stands before `other` too
                assert forall|i: int| 0 <= i < place + 1 implies text_less(
                    #[trigger] after[i].0,
                    other,
                ) by {
                    if i < at {
                        text_order_is_strict_and_total(items[i].0, key, other);
                        assert(after[i] == items[i]);
                    } else if i > at {
                        assert(after[i] == items[i - 1]);
                    }
                }
                assert(at <= place) by {
                    if place < at {
                        text_order_is_strict_and_total(items[place].0, key, other);
                    }
                }
                if place < items.len() {
                    assert(after[place + 1] == items[place]);
                }
                slot_is(after, other, place + 1);
            } else {
                assert(place <= at) by {
                    if at < place {
                        text_order_is_strict_and_total(items[at].0, key, key);
                        text_order_is_strict_and_total(key, items[at].0, other);
                    }
                }
                assert forall|i: int| 0 <= i < place implies text_less(
                    #[trigger] after[i].0,
                    other,
                ) by {
                    assert(after[i] == items[i]);
                }
                if place < at {
                    assert(after[place] == items[place]);
                }
                if place == at && at < items.len() && items[at].0 == other {
                    // `other` cannot stand at the slot of a smaller key
                    assert(after[at].0 == key);
                    text_order_is_strict_and_total(items[at].0, key, key);
                    assert(false);
                }
                slot_is(after, other, place);
            }
        }
    }
}

impl<V: View> View for OrderedMap<V> {
    type V = Seq<(Seq<char>, V::V)>;

    open spec fn view(&self) -> Seq<(Seq<char>, V::V)> {
        self.items@.map_values(|item: (String, V)| (item.0@, item.1@))
    }
}

impl<V: View> OrderedMap<V> {
    pub open spec fn well_formed(&self) -> bool {
        ascending(self@)
    }

    pub fn new() -> (map: Self)
        ensures
            map.well_formed(),
            map@ == Seq::<(Seq<char>, V::V)>::empty(),
    {
        let map = OrderedMap { items: Vec::new() };
        assert(map@ == Seq::<(Seq<char>, V::V)>::empty());
        map
    }

    /// The slot of `key`, found by halving.
    fn slot_of(&self, key: &str) -> (at: usize)
        requires
            self.well_formed(),
        ensures
            at == slot(self@, key@),
            at <= self.items@.len(),
    {
        let mut low: usize = 0;
        let mut high: usize = self.items.len();
        while low < high
            invariant
                low <= high <= self.items@.len(),
                ascending(self@),
                forall|i: int| 0 <= i < low ==> text_less(#[trigger] self@[i].0, key@),
                forall|i: int|
                    high <= i < self@.len() ==> !text_less(#[trigger] self@[i].0, key@),
            decreases high - low,
        {
            let middle: usize = low + (high - low) / 2;
            let ghost pivot = self@[middle as int].0;
            if text_before(self.items[middle].0.as_str(), key) {
                assert forall|i: int| 0 <= i < middle + 1 implies text_less(
                    #[trigger] self@[i].0,
                    key@,
                ) by {
                    if i < middle {
                        text_order_is_strict_and_total(self@[i].0, pivot, key@);
                    }
                }
                low = middle + 1;
            } else {
                assert forall|i: int| middle <= i < self@.len() implies !text_less(
                    #[trigger] self@[i].0,
                    key@,
                ) by {
                    if middle < i {
                        text_order_is_strict_and_total(pivot, self@[i].0, key@);
                    }
                }
                high = middle;
            }
        }
        proof {
            slot_is(self@, key@, low as int);
        }
        low
    }

    /// Where `key` stands.
    pub fn find(&self, key: &str) -> (result: Option<usize>)
        requires
            self.well_formed(),
        ensures
            match result {
                Some(at) => at < self.items@.len() && at == slot(self@, key@)
                    && self.items@[at as int].0@ == key@ && get(self@, key@) == Some(
                    self.items@[at as int].1@,
                ),
                None => get(self@, key@) is None,
            },
    {
        let at: usize = self.slot_of(key);
        if at < self.items.len() && same_text(self.items[at].0.as_str(), key) {
            Some(at)
        } else {
            None
        }
    }

    /// Puts `value` under `key`, in place of what stands there.
    pub fn insert(&mut self, key: String, value: V)
        requires
            old(self).well_formed(),
        ensures
            final(self).well_formed(),
            final(self)@ == put(old(self)@, key@, value@),
    {
        let ghost before = self@;
        let at: usize = self.slot_of(key.as_str());
        proof {
            put_keeps_order(before, key@, value@);
        }
        if at < self.items.len() && same_text(self.items[at].0.as_str(), key.as_str()) {
            let ghost pair = (key, value);
            self.items.set(at, (key, value));
            assert(self@ == before.update(at as int, (pair.0@, pair.1@)));
        } else {
            let ghost pair = (key, value);
            self.items.insert(at, (key, value));
            assert(self@ == before.insert(at as int, (pair.0@, pair.1@)));
        }
    }
}

/// A map whose keys are the texts of `list`.
fn keys_of(list: &Vec<String>) -> (map: OrderedMap<bool>)
    ensures
        map.well_formed(),
        forall|key: Seq<char>| #[trigger] get(map@, key) is Some <==> texts(list@).contains(key),
{
    let mut map: OrderedMap<bool> = OrderedMap::new();
    let mut at: usize = 0;
    let ghost all = texts(list@);
    proof {
        assert forall|key: Seq<char>| #[trigger] get(map@, key) is Some implies all.take(0).contains(
            key,
        ) by {
            slot_parts(map@, key);
        }
    }
    while at < list.len()
        invariant
            at <= list@.len(),
            all == texts(list@),
            map.well_formed(),
            forall|key: Seq<char>|
                #[trigger] get(map@, key) is Some <==> all.take(at as int).contains(key),
        decreases list.len() - at,
    {
        let ghost before = map@;
        let ghost added = all[at as int];
        map.insert(list[at].clone(), true);
        proof {
            let sooner = all.take(at as int);
            let later = all.take(at as int + 1);
            assert(later =~= sooner.push(added));
            assert forall|key: Seq<char>| #[trigger] get(map@, key) is Some <==> later.contains(
                key,
            ) by {
                put_then_get(before, added, true, key);
                if sooner.contains(key) {
                    let i = choose|i: int| 0 <= i < sooner.len() && sooner[i] == key;
                    assert(later[i] == key);
                }
                if later.contains(key) && key != added {
                    let i = choose|i: int| 0 <= i < later.len() && later[i] == key;
                    assert(sooner[i] == key);
                }
                if key == added {
                    assert(later[at as int] == key);
                }
            }
        }
        at += 1;
    }
    assert(all.take(at as int) =~= all);
    map
}

/// Whether every text of `list` is a key of `map`.
fn all_keys(map: &OrderedMap<bool>, list: &Vec<String>) -> (result: bool)
    requires
        map.well_formed(),
    ensures
        result == forall|i: int| 0 <= i < list@.len() ==> get(map@, #[trigger] texts(list@)[i]) is Some,
{
    let mut at: usize = 0;
    while at < list.len()
        invariant
            at <= list@.len(),
            map.well_formed(),
            forall|i: int| 0 <= i < at ==> get(map@, #[trigger] texts(list@)[i]) is Some,
        decreases list.len() - at,
    {
        if map.find(list[at].as_str()).is_none() {
            assert(get(map@, texts(list@)[at as int]) is None);
            return false;
        }
        at += 1;
    }
    true
}

/// Whether two lists hold the same texts, order and repetition aside.
pub fn same_text_sets(left: &Vec<String>, right: &Vec<String>) -> (result: bool)
    ensures
        result == (texts(left@).to_set() == texts(right@).to_set()),
{
    let left_keys = keys_of(left);
    let right_keys = keys_of(right);
    let forward = all_keys(&right_keys, left);
    let backward = all_keys(&left_keys, right);
    proof {
        let a = texts(left@);
        let b = texts(right@);
        if forward && backward {
            assert forall|key: Seq<char>| a.to_set().contains(key) <==> b.to_set().contains(key) by {
                if a.contains(key) {
                    let i = choose|i: int| 0 <= i < a.len() && a[i] == key;
                    assert(get(right_keys@, texts(left@)[i]) is Some);
                }
                if b.contains(key) {
                    let i = choose|i: int| 0 <= i < b.len() && b[i] == key;
                    assert(get(left_keys@, texts(right@)[i]) is Some);
                }
            }
            assert(a.to_set() =~= b.to_set());
        } else if !forward {
            let i = choose|i: int|
                0 <= i < left@.len() && !(get(right_keys@, #[trigger] texts(left@)[i]) is Some);
            assert(a.to_set().contains(a[i]));
            assert(!b.to_set().contains(a[i]));
        } else {
            let i = choose|i: int|
                0 <= i < right@.len() && !(get(left_keys@, #[trigger] texts(right@)[i]) is Some);
            assert(b.to_set().contains(b[i]));
            assert(!a.to_set().contains(b[i]));
        }
    }
    forward && backward
}

} // verus!
