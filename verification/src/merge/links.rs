//! The links between tables: every link that a row of a table holds is checked, and in a
//! Pak that passes each of them leads to a row.
use vstd::prelude::*;

use super::database::{
    field_from, positive_leaves, positive_leaves_of, DatabaseRow, Node, NodeKind, Reading,
};
use super::error::Outcome;
use super::references::{
    known_references, leads_to_a_row, leaf_references,
    links_pass_exactly_when_none_is_broken, read_tables_from, reading_at, row_references,
    rule_active, rule_of, table_of, table_reading, table_references, tables_from, with_table,
    PendingReference, TableRows, TablesView, REFERENCE_RULE_COUNT,
};
use super::row_ids::{ids_ascend, ids_of_rows, with_id, with_id_is_insertion, with_ids};
use crate::ordered::{
    ascending, get, put, put_keeps_order, put_then_get, text_order_is_strict_and_total,
};
use crate::pak::open::PakArchiveView;
use crate::pak::paths::PackageGroupView;
use crate::text::text_less;

verus! {

/// A row of a table holds a link under a rule: the rule is about a field of the table,
/// and a positive number of that field of the row is the target.
pub open spec fn holds_link(row: DatabaseRow, table: Seq<char>, link: PendingReference) -> bool {
    &&& link.rule_index < REFERENCE_RULE_COUNT
    &&& link.source_row == row.id
    &&& rule_of(link.rule_index as int).source_table == table
    &&& field_from(row.fields@, rule_of(link.rule_index as int).field) matches Some(node)
        && positive_leaves(node).contains(link.target_id)
}

proof fn links_of_a_row(
    done: Seq<PendingReference>,
    row: DatabaseRow,
    table: Seq<char>,
    number: int,
    link: PendingReference,
)
    requires
        0 <= number <= REFERENCE_RULE_COUNT,
    ensures
        row_references(done, row, table, number).contains(link) <==> done.contains(link) || (
        number <= link.rule_index && holds_link(row, table, link)),
    decreases REFERENCE_RULE_COUNT - number,
{
    if number < REFERENCE_RULE_COUNT {
        let node = field_from(row.fields@, rule_of(number).field);
        if rule_of(number).source_table != table || node is None {
            links_of_a_row(done, row, table, number + 1, link);
        } else {
            let leaves = positive_leaves(node->0);
            let own = leaf_references(leaves, number as usize, row.id);
            links_of_a_row(done + own, row, table, number + 1, link);
            if own.contains(link) {
                let i = choose|i: int| 0 <= i < own.len() && own[i] == link;
                assert(leaves[i] == link.target_id);
                assert((done + own)[done.len() + i] == link);
            }
            if link.rule_index == number && holds_link(row, table, link) {
                let i = choose|i: int| 0 <= i < leaves.len() && leaves[i] == link.target_id;
                assert(own[i] == link);
                assert((done + own)[done.len() + i] == link);
            }
            if done.contains(link) {
                let i = choose|i: int| 0 <= i < done.len() && done[i] == link;
                assert((done + own)[i] == link);
            }
            if (done + own).contains(link) {
                let i = choose|i: int| 0 <= i < (done + own).len() && (done + own)[i] == link;
                if i < done.len() {
                    assert(done[i] == link);
                } else {
                    assert(own[i - done.len()] == link);
                }
            }
        }
    }
}

/// The links of a table are those that its rows hold, all of them and no others.
pub proof fn links_of_a_table(
    done: Seq<PendingReference>,
    rows: Seq<DatabaseRow>,
    table: Seq<char>,
    link: PendingReference,
)
    ensures
        table_references(done, rows, table).contains(link) <==> done.contains(link) || exists|
            r: int,
        |
            0 <= r < rows.len() && holds_link(#[trigger] rows[r], table, link),
    decreases rows.len(),
{
    if rows.len() > 0 {
        let rest = rows.skip(1);
        links_of_a_row(done, rows[0], table, 0, link);
        links_of_a_table(row_references(done, rows[0], table, 0), rest, table, link);
        if exists|r: int| 0 <= r < rest.len() && holds_link(#[trigger] rest[r], table, link) {
            let r = choose|r: int|
                0 <= r < rest.len() && holds_link(#[trigger] rest[r], table, link);
            assert(rows[r + 1] == rest[r]);
        }
        if exists|r: int| 0 <= r < rows.len() && holds_link(#[trigger] rows[r], table, link) {
            let r = choose|r: int|
                0 <= r < rows.len() && holds_link(#[trigger] rows[r], table, link);
            if r > 0 {
                assert(rest[r - 1] == rows[r]);
            }
        }
        if holds_link(rows[0], table, link) {
            assert(0 <= link.rule_index);
        }
    }
}

/// A row with this id is among the rows.
pub open spec fn has_id(rows: Seq<DatabaseRow>, id: i64) -> bool {
    exists|r: int| 0 <= r < rows.len() && (#[trigger] rows[r]).id == id
}

proof fn ids_are_those_of_the_rows(ids: Seq<i64>, more: Seq<i64>, id: i64)
    requires
        ids_ascend(ids),
    ensures
        with_ids(ids, more).contains(id) <==> ids.contains(id) || more.contains(id),
    decreases more.len(),
{
    if more.len() > 0 {
        with_id_is_insertion(ids, more[0], id);
        ids_are_those_of_the_rows(with_id(ids, more[0]), more.skip(1), id);
        if more.contains(id) {
            let i = choose|i: int| 0 <= i < more.len() && more[i] == id;
            if i > 0 {
                assert(more.skip(1)[i - 1] == id);
            }
        }
        if more.skip(1).contains(id) {
            let i = choose|i: int| 0 <= i < more.skip(1).len() && more.skip(1)[i] == id;
            assert(more[i + 1] == id);
        }
    }
}

/// The table at `t` was read, and these are its rows.
pub open spec fn is_read(
    archive: PakArchiveView,
    tables: Seq<(Seq<char>, usize)>,
    readings: Seq<Reading>,
    t: int,
    rows: Seq<DatabaseRow>,
) -> bool {
    &&& 0 <= t < tables.len()
    &&& table_reading(
        archive,
        archive.inventory.packages.packages[tables[t].1 as int],
        reading_at(readings, t),
    ) matches Ok(Ok(asset)) && asset.rows@ == rows
}

/// The table is known with the ids of these rows, and their links are kept.
spec fn is_kept(found: TablesView, table: Seq<char>, rows: Seq<DatabaseRow>) -> bool {
    &&& get(found.ids, table) matches Some(list) && forall|id: i64| #[trigger]
        list.contains(id) <==> has_id(rows, id)
    &&& forall|r: int, link: PendingReference|
        0 <= r < rows.len() && #[trigger] holds_link(rows[r], table, link)
            ==> found.references.contains(link)
}

proof fn read_tables_are_kept(
    state: TablesView,
    archive: PakArchiveView,
    tables: Seq<(Seq<char>, usize)>,
    readings: Seq<Reading>,
    at: int,
    table: Seq<char>,
    rows: Seq<DatabaseRow>,
)
    requires
        0 <= at <= tables.len(),
        ascending(state.ids),
        ascending(tables),
        is_kept(state, table, rows) && (forall|t: int|
            at <= t < tables.len() ==> (#[trigger] tables[t]).0 != table) || exists|t: int|
            at <= t && is_read(archive, tables, readings, t, rows) && (#[trigger] tables[t]).0
                == table,
    ensures
        read_tables_from(state, archive, tables, readings, at) matches Ok(found) ==> is_kept(
            found,
            table,
            rows,
        ),
    decreases tables.len() - at,
{
    if at < tables.len() && read_tables_from(state, archive, tables, readings, at) is Ok {
        let name = tables[at].0;
        let reading = table_reading(
            archive,
            archive.inventory.packages.packages[tables[at].1 as int],
            reading_at(readings, at),
        );
        let next = with_table(state, name, reading)->Ok_0;
        one_table_is_kept(state, name, reading, table, rows);
        if let Ok(Ok(asset)) = reading {
            put_keeps_order(state.ids, name, with_ids(Seq::empty(), ids_of_rows(asset.rows@)));
        }
        if exists|t: int|
            at <= t && is_read(archive, tables, readings, t, rows) && (#[trigger] tables[t]).0
                == table {
            let t = choose|t: int|
                at <= t && is_read(archive, tables, readings, t, rows) && (#[trigger] tables[t]).0
                    == table;
            if t == at {
                assert forall|u: int| at + 1 <= u < tables.len() implies (#[trigger] tables[u]).0
                    != table by {
                    assert(text_less(tables[at].0, tables[u].0));
                    text_order_is_strict_and_total(table, table, table);
                }
            }
        }
        read_tables_are_kept(next, archive, tables, readings, at + 1, table, rows);
    }
}

proof fn one_table_is_kept(
    state: TablesView,
    name: Seq<char>,
    reading: Outcome<TableRows>,
    table: Seq<char>,
    rows: Seq<DatabaseRow>,
)
    requires
        ascending(state.ids),
    ensures
        with_table(state, name, reading) matches Ok(next) ==> {
            &&& is_kept(state, table, rows) && name != table ==> is_kept(next, table, rows)
            &&& (reading matches Ok(Ok(asset)) && asset.rows@ == rows) && name == table ==> is_kept(
                next,
                table,
                rows,
            )
        },
{
    if let Ok(next) = with_table(state, name, reading) {
        if let Ok(Ok(asset)) = reading {
            let own = asset.rows@;
            let list = with_ids(Seq::empty(), ids_of_rows(own));
            put_then_get(state.ids, name, list, table);
            assert forall|link: PendingReference| state.references.contains(
                link,
            ) implies #[trigger] next.references.contains(link) by {
                links_of_a_table(state.references, own, name, link);
            }
            assert forall|r: int, link: PendingReference|
                0 <= r < own.len() && #[trigger] holds_link(
                    own[r],
                    name,
                    link,
                ) implies next.references.contains(link) by {
                links_of_a_table(state.references, own, name, link);
            }
            assert forall|id: i64| #[trigger] list.contains(id) <==> has_id(own, id) by {
                ids_are_those_of_the_rows(Seq::empty(), ids_of_rows(own), id);
                if has_id(own, id) {
                    let r = choose|r: int| 0 <= r < own.len() && (#[trigger] own[r]).id == id;
                    assert(ids_of_rows(own)[r] == id);
                }
                if ids_of_rows(own).contains(id) {
                    let r = choose|r: int|
                        0 <= r < ids_of_rows(own).len() && ids_of_rows(own)[r] == id;
                    assert(own[r].id == id);
                }
            }
        }
    }
}

proof fn tables_stand_in_order(
    tables: Seq<(Seq<char>, usize)>,
    groups: Seq<PackageGroupView>,
    at: int,
)
    requires
        ascending(tables),
    ensures
        tables_from(tables, groups, at) matches Ok(all) ==> ascending(all),
    decreases groups.len() - at,
{
    if at < groups.len() {
        match table_of(groups[at].base_path) {
            None => {
                tables_stand_in_order(tables, groups, at + 1);
            },
            Some(table) => {
                put_keeps_order(tables, table, at as usize);
                tables_stand_in_order(put(tables, table, at as usize), groups, at + 1);
            },
        }
    }
}

/// In a Pak whose links pass, every link of every row of a table that was read, to a
/// table that was read too, leads to a row of that table.
pub proof fn links_of_passing_paks_lead_to_rows(
    archive: PakArchiveView,
    readings: Seq<Reading>,
    tables: Seq<(Seq<char>, usize)>,
    from: int,
    sources: Seq<DatabaseRow>,
    to: int,
    targets: Seq<DatabaseRow>,
    r: int,
    link: PendingReference,
)
    requires
        known_references(archive, readings) is Ok,
        tables_from(Seq::empty(), archive.inventory.packages.packages, 0) == Outcome::<
            Seq<(Seq<char>, usize)>,
        >::Ok(tables),
        is_read(archive, tables, readings, from, sources),
        is_read(archive, tables, readings, to, targets),
        0 <= r < sources.len(),
        holds_link(sources[r], tables[from].0, link),
        rule_of(link.rule_index as int).target_table == tables[to].0,
    ensures
        link.target_id <= i64::MAX,
        has_id(targets, link.target_id as i64),
{
    let none = TablesView {
        ids: Seq::empty(),
        references: Seq::empty(),
        warnings: Seq::empty(),
    };
    tables_stand_in_order(Seq::empty(), archive.inventory.packages.packages, 0);
    let found = read_tables_from(none, archive, tables, readings, 0)->Ok_0;
    assert(tables[from].0 == tables[from].0 && tables[to].0 == tables[to].0);
    read_tables_are_kept(none, archive, tables, readings, 0, tables[from].0, sources);
    read_tables_are_kept(none, archive, tables, readings, 0, tables[to].0, targets);
    links_pass_exactly_when_none_is_broken(tables, found);
    assert(found.references.contains(link));
    let i = choose|i: int| 0 <= i < found.references.len() && found.references[i] == link;
    assert(rule_active(found.ids, found.references[i].rule_index as int));
    assert(leads_to_a_row(found.ids, link));
}

proof fn leaves_of_items(items: Seq<Node>, count: int, value: u64)
    requires
        0 <= count <= items.len(),
    ensures
        positive_leaves_of(items, count).contains(value) <==> exists|i: int|
            0 <= i < count && positive_leaves(#[trigger] items[i]).contains(value),
    decreases count,
{
    if count > 0 {
        let before = positive_leaves_of(items, count - 1);
        let own = positive_leaves(items[count - 1]);
        let all = positive_leaves_of(items, count);
        leaves_of_items(items, count - 1, value);
        assert(all == before + own);
        if all.contains(value) {
            let k = choose|k: int| 0 <= k < all.len() && all[k] == value;
            if k < before.len() {
                assert(before[k] == value);
            } else {
                assert(own[k - before.len()] == value);
            }
        }
        if before.contains(value) {
            let k = choose|k: int| 0 <= k < before.len() && before[k] == value;
            assert(all[k] == value);
        }
        if own.contains(value) {
            let k = choose|k: int| 0 <= k < own.len() && own[k] == value;
            assert(all[before.len() + k] == value);
        }
    }
}

/// The numbers of a value are its own number where it is positive, or those of all its
/// items where it is a list or a table.
pub proof fn numbers_of_a_value(node: Node, value: u64)
    ensures
        match node.kind {
            NodeKind::Signed(own) => positive_leaves(node).contains(value) <==> own > 0 && value
                == own,
            NodeKind::Unsigned(own) => positive_leaves(node).contains(value) <==> own > 0 && value
                == own,
            NodeKind::Array(items) => positive_leaves(node).contains(value) <==> exists|i: int|
                0 <= i < items@.len() && positive_leaves(#[trigger] items@[i]).contains(value),
            NodeKind::Table(items) => positive_leaves(node).contains(value) <==> exists|i: int|
                0 <= i < items@.len() && positive_leaves(#[trigger] items@[i]).contains(value),
            _ => !positive_leaves(node).contains(value),
        },
{
    match node.kind {
        NodeKind::Signed(own) => {
            if own > 0 {
                assert(positive_leaves(node)[0] == own as u64);
            }
        },
        NodeKind::Unsigned(own) => {
            if own > 0 {
                assert(positive_leaves(node)[0] == own);
            }
        },
        NodeKind::Array(items) => {
            leaves_of_items(items@, items@.len() as int, value);
        },
        NodeKind::Table(items) => {
            leaves_of_items(items@, items@.len() as int, value);
        },
        _ => {},
    }
}

} // verus!
