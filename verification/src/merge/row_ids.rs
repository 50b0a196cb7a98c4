//! Sets of row ids, kept in ascending order.
use vstd::prelude::*;

use super::database::{
    row_from, DatabaseAsset, DatabaseRow, ParsedDbProvider, ParsedDbProviderView,
};
use crate::lists::views;
use crate::text::{signed_dec, signed_decimal, texts, texts_push};

verus! {

/// The ids stand in strictly ascending order.
pub open spec fn ids_ascend(ids: Seq<i64>) -> bool {
    forall|i: int, j: int| 0 <= i < j < ids.len() ==> ids[i] < ids[j]
}

/// How many leading ids are smaller.
pub open spec fn id_slot(ids: Seq<i64>, id: i64) -> int
    decreases ids.len(),
{
    if ids.len() == 0 || ids[0] >= id {
        0
    } else {
        1 + id_slot(ids.skip(1), id)
    }
}

/// The set with one more id.
pub open spec fn with_id(ids: Seq<i64>, id: i64) -> Seq<i64> {
    let at = id_slot(ids, id);
    if at < ids.len() && ids[at] == id {
        ids
    } else {
        ids.insert(at, id)
    }
}

/// The set with all ids of a list.
pub open spec fn with_ids(ids: Seq<i64>, more: Seq<i64>) -> Seq<i64>
    decreases more.len(),
{
    if more.len() == 0 {
        ids
    } else {
        with_ids(with_id(ids, more[0]), more.skip(1))
    }
}

proof fn id_slot_is(ids: Seq<i64>, id: i64, at: int)
    requires
        0 <= at <= ids.len(),
        forall|i: int| 0 <= i < at ==> #[trigger] ids[i] < id,
        at < ids.len() ==> ids[at] >= id,
    ensures
        id_slot(ids, id) == at,
    decreases ids.len(),
{
    if at > 0 {
        assert(ids[0] < id);
        let rest = ids.skip(1);
        assert forall|i: int| 0 <= i < at - 1 implies #[trigger] rest[i] < id by {
            assert(rest[i] == ids[i + 1]);
        }
        if at < ids.len() {
            assert(rest[at - 1] == ids[at]);
        }
        id_slot_is(rest, id, at - 1);
    }
}

proof fn id_slot_parts(ids: Seq<i64>, id: i64)
    ensures
        0 <= id_slot(ids, id) <= ids.len(),
        forall|i: int| 0 <= i < id_slot(ids, id) ==> #[trigger] ids[i] < id,
        id_slot(ids, id) < ids.len() ==> ids[id_slot(ids, id)] >= id,
    decreases ids.len(),
{
    if ids.len() > 0 && ids[0] < id {
        let rest = ids.skip(1);
        id_slot_parts(rest, id);
        assert forall|i: int| 0 <= i < id_slot(ids, id) implies #[trigger] ids[i] < id by {
            if i > 0 {
                assert(rest[i - 1] == ids[i]);
            }
        }
        if id_slot(ids, id) < ids.len() {
            assert(rest[id_slot(rest, id)] == ids[id_slot(ids, id)]);
        }
    }
}

/// A set that ascends still does with one more id, and holds that id and no
/// other new one.
pub proof fn with_id_is_insertion(ids: Seq<i64>, id: i64, other: i64)
    requires
        ids_ascend(ids),
    ensures
        ids_ascend(with_id(ids, id)),
        with_id(ids, id).contains(other) <==> ids.contains(other) || other == id,
{
    id_slot_parts(ids, id);
    let at = id_slot(ids, id);
    let after = with_id(ids, id);
    if at < ids.len() && ids[at] == id {
        assert(ids.contains(id));
    } else {
        assert(after[at] == id);
        assert forall|i: int, j: int| 0 <= i < j < after.len() implies after[i] < after[j] by {
            if j == at {
                assert(after[i] == ids[i]);
            } else if i == at {
                assert(after[j] == ids[j - 1]);
                if at < j - 1 {
                    assert(ids[at] < ids[j - 1]);
                }
            } else if j < at {
                assert(after[i] == ids[i] && after[j] == ids[j]);
            } else if i < at {
                assert(after[i] == ids[i] && after[j] == ids[j - 1]);
            } else {
                assert(after[i] == ids[i - 1] && after[j] == ids[j - 1]);
            }
        }
        if ids.contains(other) {
            let k = choose|k: int| 0 <= k < ids.len() && ids[k] == other;
            if k < at {
                assert(after[k] == other);
            } else {
                assert(after[k + 1] == other);
            }
        }
        if after.contains(other) && other != id {
            let k = choose|k: int| 0 <= k < after.len() && after[k] == other;
            if k < at {
                assert(ids[k] == other);
            } else {
                assert(ids[k - 1] == other);
            }
        }
    }
}

/// Enters an id into a set.
pub fn enter_id(ids: &mut Vec<i64>, id: i64)
    requires
        ids_ascend(old(ids)@),
    ensures
        ids_ascend(final(ids)@),
        final(ids)@ == with_id(old(ids)@, id),
{
    let ghost before = ids@;
    proof {
        with_id_is_insertion(before, id, id);
    }
    let mut at: usize = ids.len();
    while at > 0 && ids[at - 1] >= id
        invariant
            at <= ids@.len(),
            ids@ == before,
            forall|i: int| at <= i < ids@.len() ==> #[trigger] ids@[i] >= id,
        decreases at,
    {
        at -= 1;
    }
    proof {
        assert forall|i: int| 0 <= i < at implies #[trigger] before[i] < id by {
            if i < at - 1 {
                assert(before[i] < before[at as int - 1]);
            }
        }
        id_slot_is(before, id, at as int);
    }
    if at < ids.len() && ids[at] == id {
        return;
    }
    ids.insert(at, id);
}

/// Whether an id is in an ascending set, found by halving.
pub fn holds_id(ids: &Vec<i64>, id: i64) -> (result: bool)
    requires
        ids_ascend(ids@),
    ensures
        result == ids@.contains(id),
{
    let mut low: usize = 0;
    let mut high: usize = ids.len();
    while low < high
        invariant
            low <= high <= ids@.len(),
            ids_ascend(ids@),
            forall|i: int| 0 <= i < low ==> #[trigger] ids@[i] < id,
            forall|i: int| high <= i < ids@.len() ==> #[trigger] ids@[i] > id,
        decreases high - low,
    {
        let middle: usize = low + (high - low) / 2;
        let found: i64 = ids[middle];
        if found == id {
            assert(ids@[middle as int] == id);
            return true;
        }
        if found < id {
            assert forall|i: int| 0 <= i < middle + 1 implies #[trigger] ids@[i] < id by {
                if i < middle {
                    assert(ids@[i] < ids@[middle as int]);
                }
            }
            low = middle + 1;
        } else {
            assert forall|i: int| middle <= i < ids@.len() implies #[trigger] ids@[i] > id by {
                if middle < i {
                    assert(ids@[middle as int] < ids@[i]);
                }
            }
            high = middle;
        }
    }
    proof {
        if ids@.contains(id) {
            let i = choose|i: int| 0 <= i < ids@.len() && ids@[i] == id;
            assert(i < low || i >= high);
        }
    }
    false
}

/// The ids of a list of rows.
pub open spec fn ids_of_rows(rows: Seq<DatabaseRow>) -> Seq<i64> {
    rows.map_values(|row: DatabaseRow| row.id)
}

/// The set of the ids of all providers' rows.
pub open spec fn all_ids_from(ids: Seq<i64>, parsed: Seq<ParsedDbProviderView>) -> Seq<i64>
    decreases parsed.len(),
{
    if parsed.len() == 0 {
        ids
    } else {
        all_ids_from(with_ids(ids, ids_of_rows(parsed[0].asset.rows@)), parsed.skip(1))
    }
}

/// Enters the ids of a database's rows.
pub fn enter_rows(ids: &mut Vec<i64>, asset: &DatabaseAsset)
    requires
        ids_ascend(old(ids)@),
    ensures
        ids_ascend(final(ids)@),
        final(ids)@ == with_ids(old(ids)@, ids_of_rows(asset.rows@)),
{
    let ghost start = ids@;
    let ghost all = ids_of_rows(asset.rows@);
    let mut at: usize = 0;
    assert(all.skip(0) =~= all);
    while at < asset.rows.len()
        invariant
            at <= asset.rows@.len(),
            all == ids_of_rows(asset.rows@),
            ids_ascend(ids@),
            with_ids(start, all) == with_ids(ids@, all.skip(at as int)),
        decreases asset.rows.len() - at,
    {
        proof {
            assert(all.skip(at as int)[0] == asset.rows@[at as int].id);
            assert(all.skip(at as int).skip(1) =~= all.skip(at as int + 1));
        }
        enter_id(ids, asset.rows[at].id);
        at += 1;
    }
}

/// The ids of all providers' rows, each once, in ascending order.
pub fn collect_row_ids(parsed: &Vec<ParsedDbProvider>) -> (result: Vec<i64>)
    ensures
        result@ == all_ids_from(Seq::empty(), views(parsed@)),
        ids_ascend(result@),
{
    let ghost all = views(parsed@);
    let mut ids: Vec<i64> = Vec::new();
    let mut at: usize = 0;
    assert(all.skip(0) =~= all);
    while at < parsed.len()
        invariant
            at <= parsed@.len(),
            all == views(parsed@),
            ids_ascend(ids@),
            all_ids_from(Seq::empty(), all) == all_ids_from(ids@, all.skip(at as int)),
        decreases parsed.len() - at,
    {
        proof {
            assert(all.skip(at as int)[0] == parsed@[at as int]@);
            assert(all.skip(at as int).skip(1) =~= all.skip(at as int + 1));
        }
        enter_rows(&mut ids, &parsed[at].asset);
        at += 1;
    }
    ids
}

/// The numerals of a list of ids.
pub open spec fn id_texts(ids: Seq<i64>) -> Seq<Seq<char>> {
    ids.map_values(|id: i64| signed_dec(id as int))
}

pub fn list_id_texts(ids: &Vec<i64>) -> (result: Vec<String>)
    ensures
        texts(result@) == id_texts(ids@),
{
    let ghost all = id_texts(ids@);
    let mut result: Vec<String> = Vec::new();
    let mut at: usize = 0;
    while at < ids.len()
        invariant
            at <= ids@.len(),
            all == id_texts(ids@),
            texts(result@) == all.take(at as int),
        decreases ids.len() - at,
    {
        let text = signed_decimal(ids[at]);
        proof {
            texts_push(result@, text);
            assert(all[at as int] == text@);
            assert(all.take(at as int + 1) =~= all.take(at as int).push(text@));
        }
        result.push(text);
        at += 1;
    }
    assert(all.take(at as int) =~= all);
    result
}

proof fn with_ids_holds(ids: Seq<i64>, more: Seq<i64>, id: i64)
    requires
        ids_ascend(ids),
    ensures
        ids_ascend(with_ids(ids, more)),
        with_ids(ids, more).contains(id) <==> ids.contains(id) || more.contains(id),
    decreases more.len(),
{
    if more.len() > 0 {
        with_id_is_insertion(ids, more[0], id);
        let rest = more.skip(1);
        with_ids_holds(with_id(ids, more[0]), rest, id);
        if more.contains(id) && id != more[0] {
            let k = choose|k: int| 0 <= k < more.len() && more[k] == id;
            assert(rest[k - 1] == id);
        }
        if rest.contains(id) {
            let k = choose|k: int| 0 <= k < rest.len() && rest[k] == id;
            assert(more[k + 1] == id);
        }
        if id == more[0] {
            assert(more.contains(id));
        }
    }
}

proof fn rows_with_ids(rows: Seq<DatabaseRow>, id: i64)
    ensures
        row_from(rows, id) is Some <==> ids_of_rows(rows).contains(id),
    decreases rows.len(),
{
    let ids = ids_of_rows(rows);
    if rows.len() > 0 {
        let rest = rows.skip(1);
        rows_with_ids(rest, id);
        assert(ids[0] == rows[0].id);
        if ids_of_rows(rest).contains(id) {
            let k = choose|k: int| 0 <= k < rest.len() && ids_of_rows(rest)[k] == id;
            assert(ids[k + 1] == id);
        }
        if ids.contains(id) && rows[0].id != id {
            let k = choose|k: int| 0 <= k < ids.len() && ids[k] == id;
            assert(ids_of_rows(rest)[k - 1] == id);
        }
    }
}

/// A provider has a row.
pub open spec fn holds_row(parsed: Seq<ParsedDbProviderView>, provider: int, id: i64) -> bool {
    0 <= provider < parsed.len() && row_from(parsed[provider].asset.rows@, id) is Some
}

proof fn all_ids_hold(ids: Seq<i64>, parsed: Seq<ParsedDbProviderView>, id: i64)
    requires
        ids_ascend(ids),
    ensures
        ids_ascend(all_ids_from(ids, parsed)),
        all_ids_from(ids, parsed).contains(id) <==> ids.contains(id) || exists|provider: int|
            #[trigger] holds_row(parsed, provider, id),
    decreases parsed.len(),
{
    if parsed.len() > 0 {
        let rows = parsed[0].asset.rows@;
        let rest = parsed.skip(1);
        with_ids_holds(ids, ids_of_rows(rows), id);
        rows_with_ids(rows, id);
        all_ids_hold(with_ids(ids, ids_of_rows(rows)), rest, id);
        if exists|provider: int| #[trigger] holds_row(rest, provider, id) {
            let provider = choose|provider: int| #[trigger] holds_row(rest, provider, id);
            assert(holds_row(parsed, provider + 1, id));
        }
        if exists|provider: int| #[trigger] holds_row(parsed, provider, id) {
            let provider = choose|provider: int| #[trigger] holds_row(parsed, provider, id);
            if provider > 0 {
                assert(holds_row(rest, provider - 1, id));
            }
        }
        if row_from(rows, id) is Some {
            assert(holds_row(parsed, 0, id));
        }
    }
}

/// The ids that are collected are those of the rows that some provider has, each
/// once.
pub proof fn collected_ids_are_those_of_the_rows(parsed: Seq<ParsedDbProviderView>, id: i64)
    ensures
        ids_ascend(all_ids_from(Seq::empty(), parsed)),
        all_ids_from(Seq::empty(), parsed).contains(id) <==> exists|provider: int| #[trigger]
            holds_row(parsed, provider, id),
{
    all_ids_hold(Seq::empty(), parsed, id);
}

} // verus!
