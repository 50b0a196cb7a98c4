//! Links between the tables of a game whose rules are known.
use vstd::prelude::*;

use super::analyze::{checked_profile, pinned_profile, pinned_profile_id};
use super::database::{
    field_from, map_get, positive_leaves, visit_positive_integer_leaves, DatabaseAsset,
    DatabaseRow, ReadFailure, Reading,
};
use super::error::{in_merge, message_of, seen, unverified, MergeError, MergeErrorView, Outcome, Result};
use super::ids::{folded, join, joined, sort_key};
use super::providers::{missing_component, missing_package_component};
use super::row_ids::{enter_rows, holds_id, ids_ascend, ids_of_rows, with_ids};
use super::types::{MergePlan, MergePlanView};
use crate::ordered::{get, put, slot, slot_parts, OrderedMap};
use crate::pak::access::{mapped_bytes, place_of};
use crate::pak::open::{PakArchive, PakArchiveView};
use crate::pak::paths::{group_views, PackageComponent, PackageGroup, PackageGroupView};
use crate::sorting::{distinct, keys, sort_distinct, take_keys};
use crate::text::{
    cat2, cat3, cat4, cat5, dec, decimal, decimal_usize, ends_with, same_text, signed_dec,
    signed_decimal, text_ends_with, texts, texts_push,
};

verus! {

/// How many broken links an error names.
pub const MAX_REFERENCE_BREAK_EXAMPLES: usize = 32;

/// How many rules there are.
pub const REFERENCE_RULE_COUNT: usize = 16;

/// A field whose numbers are ids of rows of another table.
#[derive(Debug)]
pub struct KnownReferenceRule {
    pub source_table: &'static str,
    pub field: &'static str,
    pub target_table: &'static str,
}

#[verifier::ext_equal]
pub struct RuleView {
    pub source_table: Seq<char>,
    pub field: Seq<char>,
    pub target_table: Seq<char>,
}

impl View for KnownReferenceRule {
    type V = RuleView;

    open spec fn view(&self) -> RuleView {
        RuleView {
            source_table: self.source_table@,
            field: self.field@,
            target_table: self.target_table@,
        }
    }
}

/// The rules of the game, by their numbers.
pub open spec fn rule_of(number: int) -> RuleView {
    if number == 0 {
        rule("EnemyGroups"@, "m_EnemyID"@, "EnemyID"@)
    } else if number == 1 {
        rule("EnemyID"@, "m_TypeID"@, "EnemyTypeID"@)
    } else if number == 2 {
        rule("EnemyID"@, "m_WeakID"@, "EnemyWeakLockID"@)
    } else if number == 3 {
        rule("EnemyID"@, "m_ResistAilmentID"@, "SkillResistAilmentID"@)
    } else if number == 4 {
        rule("EnemyID"@, "m_SkillsID"@, "SkillID"@)
    } else if number == 5 {
        rule("SkillID"@, "m_BoostSkills"@, "SkillID"@)
    } else if number == 6 {
        rule("SkillID"@, "m_ReplaceSkill"@, "SkillID"@)
    } else if number == 7 {
        rule("SkillID"@, "m_ReplaceSkillArray"@, "SkillID"@)
    } else if number == 8 {
        rule("SkillID"@, "m_WeaponReplaceSkill"@, "SkillID"@)
    } else if number == 9 {
        rule("SkillID"@, "m_Avails"@, "SkillAvailID"@)
    } else if number == 10 {
        rule("SkillID"@, "m_BeginEffective"@, "SkillEffectiveID"@)
    } else if number == 11 {
        rule("SkillID"@, "m_Effectives"@, "SkillEffectiveID"@)
    } else if number == 12 {
        rule("SkillID"@, "m_EndEffective"@, "SkillEffectiveID"@)
    } else if number == 13 {
        rule("SkillAvailID"@, "m_DelayedSkill"@, "SkillID"@)
    } else if number == 14 {
        rule("SkillAvailID"@, "m_ResistAilmentID"@, "SkillResistAilmentID"@)
    } else {
        rule("BattleEventList"@, "m_EventCommand"@, "BattleEventCommand"@)
    }
}

pub open spec fn rule(source_table: Seq<char>, field: Seq<char>, target_table: Seq<char>) -> RuleView {
    RuleView { source_table, field, target_table }
}

fn make_rule(source_table: &'static str, field: &'static str, target_table: &'static str) -> (result:
    KnownReferenceRule)
    ensures
        result@ == rule(source_table@, field@, target_table@),
{
    KnownReferenceRule { source_table, field, target_table }
}

/// A rule of the game.
pub fn known_reference_rule(number: usize) -> (result: KnownReferenceRule)
    requires
        number < REFERENCE_RULE_COUNT,
    ensures
        result@ == rule_of(number as int),
{
    if number == 0 {
        make_rule("EnemyGroups", "m_EnemyID", "EnemyID")
    } else if number == 1 {
        make_rule("EnemyID", "m_TypeID", "EnemyTypeID")
    } else if number == 2 {
        make_rule("EnemyID", "m_WeakID", "EnemyWeakLockID")
    } else if number == 3 {
        make_rule("EnemyID", "m_ResistAilmentID", "SkillResistAilmentID")
    } else if number == 4 {
        make_rule("EnemyID", "m_SkillsID", "SkillID")
    } else if number == 5 {
        make_rule("SkillID", "m_BoostSkills", "SkillID")
    } else if number == 6 {
        make_rule("SkillID", "m_ReplaceSkill", "SkillID")
    } else if number == 7 {
        make_rule("SkillID", "m_ReplaceSkillArray", "SkillID")
    } else if number == 8 {
        make_rule("SkillID", "m_WeaponReplaceSkill", "SkillID")
    } else if number == 9 {
        make_rule("SkillID", "m_Avails", "SkillAvailID")
    } else if number == 10 {
        make_rule("SkillID", "m_BeginEffective", "SkillEffectiveID")
    } else if number == 11 {
        make_rule("SkillID", "m_Effectives", "SkillEffectiveID")
    } else if number == 12 {
        make_rule("SkillID", "m_EndEffective", "SkillEffectiveID")
    } else if number == 13 {
        make_rule("SkillAvailID", "m_DelayedSkill", "SkillID")
    } else if number == 14 {
        make_rule("SkillAvailID", "m_ResistAilmentID", "SkillResistAilmentID")
    } else {
        make_rule("BattleEventList", "m_EventCommand", "BattleEventCommand")
    }
}

/// The table that a package holds.
pub open spec fn table_of(base_path: Seq<char>) -> Option<Seq<char>> {
    let path = folded(base_path);
    if ends_with(path, "/local/database/enemy/enemygroups"@) {
        Some("EnemyGroups"@)
    } else if ends_with(path, "/local/database/enemy/enemyid"@) {
        Some("EnemyID"@)
    } else if ends_with(path, "/local/database/enemy/enemytypeid"@) {
        Some("EnemyTypeID"@)
    } else if ends_with(path, "/local/database/enemy/enemyweaklockid"@) {
        Some("EnemyWeakLockID"@)
    } else if ends_with(path, "/local/database/skill/skillid"@) {
        Some("SkillID"@)
    } else if ends_with(path, "/local/database/skill/skillavailid"@) {
        Some("SkillAvailID"@)
    } else if ends_with(path, "/local/database/skill/skilleffectiveid"@) {
        Some("SkillEffectiveID"@)
    } else if ends_with(path, "/local/database/skill/skillresistailmentid"@) {
        Some("SkillResistAilmentID"@)
    } else if ends_with(path, "/local/database/battle/battleeventlist"@) {
        Some("BattleEventList"@)
    } else if ends_with(path, "/local/database/battle/battleeventcommand"@) {
        Some("BattleEventCommand"@)
    } else {
        None
    }
}

pub fn known_reference_table(base_path: &str) -> (result: Option<&'static str>)
    ensures
        match (result, table_of(base_path@)) {
            (Some(table), Some(wanted)) => table@ == wanted,
            (None, None) => true,
            _ => false,
        },
{
    let key = sort_key(base_path);
    let path = key.as_str();
    if text_ends_with(path, "/local/database/enemy/enemygroups") {
        Some("EnemyGroups")
    } else if text_ends_with(path, "/local/database/enemy/enemyid") {
        Some("EnemyID")
    } else if text_ends_with(path, "/local/database/enemy/enemytypeid") {
        Some("EnemyTypeID")
    } else if text_ends_with(path, "/local/database/enemy/enemyweaklockid") {
        Some("EnemyWeakLockID")
    } else if text_ends_with(path, "/local/database/skill/skillid") {
        Some("SkillID")
    } else if text_ends_with(path, "/local/database/skill/skillavailid") {
        Some("SkillAvailID")
    } else if text_ends_with(path, "/local/database/skill/skilleffectiveid") {
        Some("SkillEffectiveID")
    } else if text_ends_with(path, "/local/database/skill/skillresistailmentid") {
        Some("SkillResistAilmentID")
    } else if text_ends_with(path, "/local/database/battle/battleeventlist") {
        Some("BattleEventList")
    } else if text_ends_with(path, "/local/database/battle/battleeventcommand") {
        Some("BattleEventCommand")
    } else {
        None
    }
}

/// For each table of an archive the package that holds it.
pub open spec fn tables_from(
    tables: Seq<(Seq<char>, usize)>,
    groups: Seq<PackageGroupView>,
    at: int,
) -> Outcome<Seq<(Seq<char>, usize)>>
    decreases groups.len() - at,
{
    if at >= groups.len() {
        Ok(tables)
    } else {
        match table_of(groups[at].base_path) {
            None => tables_from(tables, groups, at + 1),
            Some(table) => match get(tables, table) {
                Some(previous) => unverified(
                    "Reference checking cannot continue because table "@ + table
                        + " appears in two places: "@ + groups[previous as int].base_path + (
                    " and "@ + groups[at].base_path),
                ),
                None => tables_from(put(tables, table, at as usize), groups, at + 1),
            },
        }
    }
}

/// Every table names a package that is there.
pub open spec fn tables_known(tables: Seq<(Seq<char>, usize)>, groups: nat) -> bool {
    forall|i: int| 0 <= i < tables.len() ==> (#[trigger] tables[i]).1 < groups
}

proof fn put_known(tables: Seq<(Seq<char>, usize)>, key: Seq<char>, at: usize, groups: nat)
    requires
        tables_known(tables, groups),
        at < groups,
    ensures
        tables_known(put(tables, key, at), groups),
{
    slot_parts(tables, key);
    let place = slot(tables, key);
    let after = put(tables, key, at);
    assert forall|i: int| 0 <= i < after.len() implies (#[trigger] after[i]).1 < groups by {
        if place < tables.len() && tables[place].0 == key {
            if i != place {
                assert(after[i] == tables[i]);
            }
        } else if i < place {
            assert(after[i] == tables[i]);
        } else if i > place {
            assert(after[i] == tables[i - 1]);
        }
    }
}

/// The outcome of a step that yields a table of places.
pub open spec fn same_tables(
    result: Result<OrderedMap<usize>>,
    wanted: Outcome<Seq<(Seq<char>, usize)>>,
) -> bool {
    match (result, wanted) {
        (Ok(map), Ok(expected)) => map@ == expected,
        (Err(error), Err(expected)) => error@ == expected,
        _ => false,
    }
}

#[verifier::loop_isolation(false)]
fn find_tables(groups: &Vec<PackageGroup>) -> (result: Result<OrderedMap<usize>>)
    ensures
        same_tables(result, tables_from(Seq::empty(), group_views(groups@), 0)),
        result matches Ok(map) ==> map.well_formed() && tables_known(map@, groups@.len()),
{
    let ghost all = group_views(groups@);
    let mut tables: OrderedMap<usize> = OrderedMap::new();
    let mut at: usize = 0;
    while at < groups.len()
        invariant
            at <= groups@.len(),
            tables.well_formed(),
            tables_known(tables@, groups@.len()),
            tables_from(Seq::empty(), all, 0) == tables_from(tables@, all, at as int),
        decreases groups.len() - at,
    {
        let group = &groups[at];
        assert(all[at as int] == group@);
        match known_reference_table(group.base_path.as_str()) {
            None => {},
            Some(table) => {
                match tables.find(table) {
                    Some(place) => {
                        let previous: usize = tables.items[place].1;
                        proof {
                            assert(tables@[place as int].1 == previous);
                            assert(all[previous as int] == groups@[previous as int]@);
                        }
                        return Err(
                            MergeError::Verification(
                                cat5(
                                    "Reference checking cannot continue because table ",
                                    table,
                                    " appears in two places: ",
                                    groups[previous].base_path.as_str(),
                                    cat2(" and ", group.base_path.as_str()).as_str(),
                                ),
                            ),
                        );
                    },
                    None => {},
                }
                proof {
                    put_known(tables@, table@, at, groups@.len());
                }
                tables.insert(table.to_owned(), at);
            },
        }
        at += 1;
    }
    Ok(tables)
}

/// The bytes of the tables together.
pub open spec fn table_bytes_from(
    total: int,
    archive: PakArchiveView,
    tables: Seq<(Seq<char>, usize)>,
) -> Outcome<int>
    decreases tables.len(),
{
    if tables.len() == 0 {
        Ok(total)
    } else {
        let group = archive.inventory.packages.packages[tables[0].1 as int];
        match group.components.uexp {
            None => missing_component(group, PackageComponent::Uexp),
            Some(path) => match in_merge(place_of(archive, path)) {
                Err(error) => Err(error),
                Ok(place) => {
                    let sum = total + archive.entries[place].1.size;
                    if sum > u64::MAX {
                        unverified("reference check size overflow"@)
                    } else {
                        table_bytes_from(sum, archive, tables.skip(1))
                    }
                },
            },
        }
    }
}

#[verifier::loop_isolation(false)]
fn sum_table_bytes(archive: &PakArchive, tables: &OrderedMap<usize>) -> (result: Result<u64>)
    requires
        archive.well_formed(),
        tables_known(tables@, archive.inventory.packages.packages@.len()),
    ensures
        match (result, table_bytes_from(0, archive@, tables@)) {
            (Ok(total), Ok(wanted)) => total == wanted,
            (Err(error), Err(wanted)) => error@ == wanted,
            _ => false,
        },
{
    let ghost all = tables@;
    let mut total: u64 = 0;
    let mut at: usize = 0;
    assert(all.skip(0) =~= all);
    while at < tables.items.len()
        invariant
            at <= tables.items@.len(),
            table_bytes_from(0, archive@, all) == table_bytes_from(
                total as int,
                archive@,
                all.skip(at as int),
            ),
        decreases tables.items.len() - at,
    {
        let place: usize = tables.items[at].1;
        proof {
            assert(all[at as int].1 == place);
            assert(all.skip(at as int)[0] == all[at as int]);
            assert(all.skip(at as int).skip(1) =~= all.skip(at as int + 1));
        }
        let group = &archive.inventory.packages.packages[place];
        assert(archive@.inventory.packages.packages[place as int] == group@);
        match &group.components.uexp {
            None => {
                return Err(missing_package_component(group, PackageComponent::Uexp));
            },
            Some(path) => {
                let size: u64 = match archive.entry_size(path.as_str()) {
                    Ok(size) => size,
                    Err(error) => {
                        return Err(MergeError::Pak(error));
                    },
                };
                match total.checked_add(size) {
                    Some(sum) => {
                        total = sum;
                    },
                    None => {
                        return Err(
                            MergeError::Verification("reference check size overflow".to_owned()),
                        );
                    },
                }
            },
        }
        at += 1;
    }
    Ok(total)
}

/// A table as the reader reads it: its rows, or why one of its rows cannot be
/// read.
pub type TableRows = std::result::Result<DatabaseAsset, String>;

/// A table as the reader reads it.
pub open spec fn table_reading(
    archive: PakArchiveView,
    group: PackageGroupView,
    reading: Option<Reading>,
) -> Outcome<TableRows> {
    if !group.complete {
        missing_component(group, PackageComponent::Uasset)
    } else {
        match group.components.uexp {
            None => missing_component(group, PackageComponent::Uexp),
            Some(path) => match in_merge(mapped_bytes(archive, path, usize::MAX as u64)) {
                Err(error) => Err(error),
                Ok(_) => match reading {
                    None => Err(MergeErrorView::Cancelled),
                    Some(Err(ReadFailure::Cancelled)) => Err(MergeErrorView::Cancelled),
                    Some(Err(ReadFailure::Failed(text))) => Err(
                        MergeErrorView::BinaryAsset(text@),
                    ),
                    Some(Err(ReadFailure::Row(text))) => Ok(Err(text)),
                    Some(Ok(asset)) => Ok(Ok(asset)),
                },
            },
        }
    }
}

/// Reads a table of an archive.
pub fn read_reference_table(archive: &PakArchive, group: &PackageGroup, reading: Option<Reading>) -> (result:
    Result<TableRows>)
    requires
        archive.well_formed(),
    ensures
        match (result, table_reading(archive@, group@, reading)) {
            (Ok(rows), Ok(wanted)) => rows == wanted,
            (Err(error), Err(wanted)) => error@ == wanted,
            _ => false,
        },
{
    if !group.complete {
        return Err(missing_package_component(group, PackageComponent::Uasset));
    }
    let path = match &group.components.uexp {
        Some(path) => path,
        None => {
            return Err(missing_package_component(group, PackageComponent::Uexp));
        },
    };
    match archive.peek_entry(path.as_str(), usize::MAX as u64) {
        Ok(_) => {},
        Err(error) => {
            return Err(MergeError::Pak(error));
        },
    }
    match reading {
        None => Err(MergeError::Cancelled),
        Some(Err(ReadFailure::Cancelled)) => Err(MergeError::Cancelled),
        Some(Err(ReadFailure::Failed(text))) => Err(MergeError::BinaryAsset(text)),
        Some(Err(ReadFailure::Row(text))) => Ok(Err(text)),
        Some(Ok(asset)) => Ok(Ok(asset)),
    }
}

/// A link that a row holds.
#[derive(Debug, Clone, Copy, PartialEq, Eq, Structural)]
pub struct PendingReference {
    pub rule_index: usize,
    pub source_row: i64,
    pub target_id: u64,
}

/// The links to the ids of a list.
pub open spec fn leaf_references(leaves: Seq<u64>, rule_index: usize, source_row: i64) -> Seq<
    PendingReference,
> {
    leaves.map_values(
        |leaf: u64| PendingReference { rule_index, source_row, target_id: leaf },
    )
}

/// The links of a row under the rules from `number` on.
pub open spec fn row_references(
    done: Seq<PendingReference>,
    row: DatabaseRow,
    table: Seq<char>,
    number: int,
) -> Seq<PendingReference>
    decreases REFERENCE_RULE_COUNT - number,
{
    if number >= REFERENCE_RULE_COUNT {
        done
    } else if rule_of(number).source_table != table {
        row_references(done, row, table, number + 1)
    } else {
        match field_from(row.fields@, rule_of(number).field) {
            None => row_references(done, row, table, number + 1),
            Some(node) => row_references(
                done + leaf_references(positive_leaves(node), number as usize, row.id),
                row,
                table,
                number + 1,
            ),
        }
    }
}

/// The links of all rows of a table.
pub open spec fn table_references(
    done: Seq<PendingReference>,
    rows: Seq<DatabaseRow>,
    table: Seq<char>,
) -> Seq<PendingReference>
    decreases rows.len(),
{
    if rows.len() == 0 {
        done
    } else {
        table_references(row_references(done, rows[0], table, 0), rows.skip(1), table)
    }
}

fn push_leaves(
    references: &mut Vec<PendingReference>,
    leaves: &Vec<u64>,
    rule_index: usize,
    source_row: i64,
)
    ensures
        final(references)@ == old(references)@ + leaf_references(leaves@, rule_index, source_row),
{
    let ghost before = references@;
    let ghost all = leaf_references(leaves@, rule_index, source_row);
    let mut at: usize = 0;
    assert(before + all.take(0) =~= before);
    while at < leaves.len()
        invariant
            at <= leaves@.len(),
            all == leaf_references(leaves@, rule_index, source_row),
            references@ == before + all.take(at as int),
        decreases leaves.len() - at,
    {
        references.push(PendingReference { rule_index, source_row, target_id: leaves[at] });
        proof {
            assert(all.take(at as int + 1) =~= all.take(at as int).push(all[at as int]));
            assert(references@ =~= before + all.take(at as int + 1));
        }
        at += 1;
    }
    assert(all.take(at as int) =~= all);
}

fn push_row_references(references: &mut Vec<PendingReference>, row: &DatabaseRow, table: &str)
    ensures
        final(references)@ == row_references(old(references)@, *row, table@, 0),
{
    let ghost start = references@;
    let mut number: usize = 0;
    while number < REFERENCE_RULE_COUNT
        invariant
            number <= REFERENCE_RULE_COUNT,
            row_references(start, *row, table@, 0) == row_references(
                references@,
                *row,
                table@,
                number as int,
            ),
        decreases REFERENCE_RULE_COUNT - number,
    {
        let known = known_reference_rule(number);
        if same_text(known.source_table, table) {
            match map_get(row, known.field) {
                None => {},
                Some(node) => {
                    let mut leaves: Vec<u64> = Vec::new();
                    visit_positive_integer_leaves(node, &mut leaves);
                    assert(leaves@ =~= positive_leaves(*node));
                    push_leaves(references, &leaves, number, row.id);
                },
            }
        }
        number += 1;
    }
}

fn push_table_references(references: &mut Vec<PendingReference>, asset: &DatabaseAsset, table: &str)
    ensures
        final(references)@ == table_references(old(references)@, asset.rows@, table@),
{
    let ghost start = references@;
    let ghost rows = asset.rows@;
    let mut at: usize = 0;
    assert(rows.skip(0) =~= rows);
    while at < asset.rows.len()
        invariant
            at <= asset.rows@.len(),
            rows == asset.rows@,
            table_references(start, rows, table@) == table_references(
                references@,
                rows.skip(at as int),
                table@,
            ),
        decreases asset.rows.len() - at,
    {
        proof {
            assert(rows.skip(at as int)[0] == rows[at as int]);
            assert(rows.skip(at as int).skip(1) =~= rows.skip(at as int + 1));
        }
        push_row_references(references, &asset.rows[at], table);
        at += 1;
    }
}

/// The row ids of one table.
#[derive(Debug)]
pub struct IdList {
    pub ids: Vec<i64>,
}

impl View for IdList {
    type V = Seq<i64>;

    open spec fn view(&self) -> Seq<i64> {
        self.ids@
    }
}

/// What the tables hold: the ids of their rows, and their links.
#[verifier::ext_equal]
pub struct TablesView {
    pub ids: Seq<(Seq<char>, Seq<i64>)>,
    pub references: Seq<PendingReference>,
    pub warnings: Seq<Seq<char>>,
}

/// What the tables hold: the ids of their rows, and their links.
#[derive(Debug)]
pub struct Tables {
    pub ids: OrderedMap<IdList>,
    pub references: Vec<PendingReference>,
    pub warnings: Vec<String>,
}

impl View for Tables {
    type V = TablesView;

    open spec fn view(&self) -> TablesView {
        TablesView {
            ids: self.ids@,
            references: self.references@,
            warnings: texts(self.warnings@),
        }
    }
}

/// The id lists ascend.
pub open spec fn lists_ascend(ids: Seq<(Seq<char>, Seq<i64>)>) -> bool {
    forall|i: int| 0 <= i < ids.len() ==> ids_ascend((#[trigger] ids[i]).1)
}

proof fn put_ascends(ids: Seq<(Seq<char>, Seq<i64>)>, key: Seq<char>, list: Seq<i64>)
    requires
        lists_ascend(ids),
        ids_ascend(list),
    ensures
        lists_ascend(put(ids, key, list)),
{
    slot_parts(ids, key);
    let place = slot(ids, key);
    let after = put(ids, key, list);
    assert forall|i: int| 0 <= i < after.len() implies ids_ascend((#[trigger] after[i]).1) by {
        if place < ids.len() && ids[place].0 == key {
            if i != place {
                assert(after[i] == ids[i]);
            }
        } else if i < place {
            assert(after[i] == ids[i]);
        } else if i > place {
            assert(after[i] == ids[i - 1]);
        }
    }
}

/// The warning of a table that could not be read.
pub open spec fn unread_warning(table: Seq<char>, text: Seq<char>) -> Seq<char> {
    "References in table "@ + table
        + " could not be checked because the table could not be read: "@ + text
}

/// What the tables hold, with one more.
pub open spec fn with_table(
    state: TablesView,
    table: Seq<char>,
    reading: Outcome<TableRows>,
) -> Outcome<TablesView> {
    match reading {
        Ok(Err(text)) => Err(MergeErrorView::BinaryAsset(text@)),
        Ok(Ok(asset)) => Ok(
            TablesView {
                ids: put(state.ids, table, with_ids(Seq::empty(), ids_of_rows(asset.rows@))),
                references: table_references(state.references, asset.rows@, table),
                warnings: state.warnings,
            },
        ),
        Err(MergeErrorView::Cancelled) => Err(MergeErrorView::Cancelled),
        Err(error) => Ok(
            TablesView {
                warnings: state.warnings.push(unread_warning(table, message_of(error))),
                ..state
            },
        ),
    }
}

/// The reading of a table; none where the readings end before it.
pub open spec fn reading_at(readings: Seq<Reading>, at: int) -> Option<Reading> {
    if 0 <= at < readings.len() {
        Some(readings[at])
    } else {
        None
    }
}

/// What the tables from `at` on hold.
pub open spec fn read_tables_from(
    state: TablesView,
    archive: PakArchiveView,
    tables: Seq<(Seq<char>, usize)>,
    readings: Seq<Reading>,
    at: int,
) -> Outcome<TablesView>
    decreases tables.len() - at,
{
    if at >= tables.len() {
        Ok(state)
    } else {
        match with_table(
            state,
            tables[at].0,
            table_reading(
                archive,
                archive.inventory.packages.packages[tables[at].1 as int],
                reading_at(readings, at),
            ),
        ) {
            Err(error) => Err(error),
            Ok(next) => read_tables_from(next, archive, tables, readings, at + 1),
        }
    }
}

fn add_table(state: &mut Tables, table: &str, reading: Result<TableRows>) -> (result: Result<()>)
    requires
        old(state).ids.well_formed(),
        lists_ascend(old(state).ids@),
    ensures
        match (
            result,
            with_table(
                old(state)@,
                table@,
                (match reading {
                    Ok(rows) => Ok(rows),
                    Err(error) => Err(error@),
                }),
            ),
        ) {
            (Ok(_), Ok(wanted)) => final(state)@ == wanted && final(state).ids.well_formed()
                && lists_ascend(final(state).ids@),
            (Err(error), Err(wanted)) => error@ == wanted,
            _ => false,
        },
{
    match reading {
        Ok(Err(text)) => Err(MergeError::BinaryAsset(text)),
        Ok(Ok(asset)) => {
            let mut ids: Vec<i64> = Vec::new();
            enter_rows(&mut ids, &asset);
            push_table_references(&mut state.references, &asset, table);
            proof {
                put_ascends(state.ids@, table@, ids@);
            }
            state.ids.insert(table.to_owned(), IdList { ids });
            Ok(())
        },
        Err(MergeError::Cancelled) => Err(MergeError::Cancelled),
        Err(error) => {
            let warning = cat4(
                "References in table ",
                table,
                " could not be checked because the table could not be read: ",
                error.message().as_str(),
            );
            proof {
                texts_push(state.warnings@, warning);
            }
            state.warnings.push(warning);
            Ok(())
        },
    }
}

#[verifier::loop_isolation(false)]
fn read_tables(archive: &PakArchive, tables: &OrderedMap<usize>, readings: Vec<Reading>) -> (result:
    Result<Tables>)
    requires
        archive.well_formed(),
        tables_known(tables@, archive.inventory.packages.packages@.len()),
    ensures
        seen(result) == read_tables_from(
            TablesView { ids: Seq::empty(), references: Seq::empty(), warnings: Seq::empty() },
            archive@,
            tables@,
            readings@,
            0,
        ),
        result matches Ok(found) ==> found.ids.well_formed() && lists_ascend(found.ids@),
{
    let ghost start = TablesView {
        ids: Seq::empty(),
        references: Seq::empty(),
        warnings: Seq::empty(),
    };
    let ghost all = readings@;
    let mut rest = readings;
    let mut state = Tables { ids: OrderedMap::new(), references: Vec::new(), warnings: Vec::new() };
    let mut at: usize = 0;
    proof {
        assert(state@ =~= start);
        assert(all.skip(0) =~= all);
    }
    while at < tables.items.len()
        invariant
            at <= tables.items@.len(),
            state.ids.well_formed(),
            lists_ascend(state.ids@),
            rest@ == (if at <= all.len() {
                all.skip(at as int)
            } else {
                Seq::empty()
            }),
            read_tables_from(start, archive@, tables@, all, 0) == read_tables_from(
                state@,
                archive@,
                tables@,
                all,
                at as int,
            ),
        decreases tables.items.len() - at,
    {
        let mut reading: Option<Reading> = None;
        if rest.len() > 0 {
            reading = Some(rest.remove(0));
            proof {
                assert(all.skip(at as int)[0] == all[at as int]);
                assert(rest@ =~= all.skip(at as int + 1));
            }
        }
        let place: usize = tables.items[at].1;
        proof {
            assert(reading == reading_at(all, at as int));
            assert(tables@[at as int].1 == place);
        }
        let group = &archive.inventory.packages.packages[place];
        assert(archive@.inventory.packages.packages[place as int] == group@);
        let found = read_reference_table(archive, group, reading);
        match add_table(&mut state, tables.items[at].0.as_str(), found) {
            Ok(_) => {},
            Err(error) => {
                return Err(error);
            },
        }
        at += 1;
    }
    Ok(state)
}

/// Whether a rule can be checked: both its tables were read.
pub open spec fn rule_active(ids: Seq<(Seq<char>, Seq<i64>)>, number: int) -> bool {
    get(ids, rule_of(number).source_table) is Some && get(ids, rule_of(number).target_table) is Some
}

/// The warning of a rule whose target table is missing.
pub open spec fn unchecked_warning(tables: Seq<(Seq<char>, usize)>, number: int) -> Seq<char> {
    "References from "@ + rule_of(number).source_table + "."@ + rule_of(number).field + (" to "@
        + rule_of(number).target_table + (" were not checked because the target table "@ + (if get(
        tables,
        rule_of(number).target_table,
    ) is Some {
        "is present but could not be read"@
    } else {
        "is not present in the merged mod Pak"@
    }) + "."@))
}

/// The warnings of the first `count` rules.
pub open spec fn rule_warnings(
    tables: Seq<(Seq<char>, usize)>,
    ids: Seq<(Seq<char>, Seq<i64>)>,
    count: int,
) -> Seq<Seq<char>>
    decreases count,
{
    if count <= 0 {
        Seq::empty()
    } else {
        let before = rule_warnings(tables, ids, count - 1);
        if get(ids, rule_of(count - 1).source_table) is Some && get(
            ids,
            rule_of(count - 1).target_table,
        ) is None {
            before.push(unchecked_warning(tables, count - 1))
        } else {
            before
        }
    }
}

/// How many of the first `count` rules can be checked.
pub open spec fn active_rules(ids: Seq<(Seq<char>, Seq<i64>)>, count: int) -> int
    decreases count,
{
    if count <= 0 {
        0
    } else if rule_active(ids, count - 1) {
        active_rules(ids, count - 1) + 1
    } else {
        active_rules(ids, count - 1)
    }
}

/// Whether one of the first `count` rules checks a table's links.
pub open spec fn source_active(
    ids: Seq<(Seq<char>, Seq<i64>)>,
    table: Seq<char>,
    count: int,
) -> bool
    decreases count,
{
    if count <= 0 {
        false
    } else {
        source_active(ids, table, count - 1) || (rule_of(count - 1).source_table == table
            && rule_active(ids, count - 1))
    }
}

/// How many rows the tables among `ids` have whose links are checked.
pub open spec fn checked_rows(
    ids: Seq<(Seq<char>, Seq<i64>)>,
    part: Seq<(Seq<char>, Seq<i64>)>,
) -> int
    decreases part.len(),
{
    if part.len() == 0 {
        0
    } else {
        let before = checked_rows(ids, part.drop_last());
        if source_active(ids, part.last().0, REFERENCE_RULE_COUNT as int) {
            if before + part.last().1.len() > usize::MAX {
                usize::MAX as int
            } else {
                before + part.last().1.len()
            }
        } else {
            before
        }
    }
}

/// Checks the rules of a table.
fn check_rules(tables: &OrderedMap<usize>, ids: &OrderedMap<IdList>) -> (result: (
    Vec<String>,
    Vec<bool>,
    usize,
))
    requires
        tables.well_formed(),
        ids.well_formed(),
    ensures
        texts(result.0@) == rule_warnings(tables@, ids@, REFERENCE_RULE_COUNT as int),
        result.1@.len() == REFERENCE_RULE_COUNT,
        forall|i: int| 0 <= i < REFERENCE_RULE_COUNT ==> result.1@[i] == rule_active(ids@, i),
        result.2 == active_rules(ids@, REFERENCE_RULE_COUNT as int),
{
    let mut warnings: Vec<String> = Vec::new();
    let mut active: Vec<bool> = Vec::new();
    let mut count: usize = 0;
    let mut number: usize = 0;
    assert(texts(warnings@) =~= Seq::<Seq<char>>::empty());
    while number < REFERENCE_RULE_COUNT
        invariant
            number <= REFERENCE_RULE_COUNT,
            tables.well_formed(),
            ids.well_formed(),
            texts(warnings@) == rule_warnings(tables@, ids@, number as int),
            active@.len() == number,
            forall|i: int| 0 <= i < number ==> active@[i] == rule_active(ids@, i),
            count == active_rules(ids@, number as int),
            count <= number,
        decreases REFERENCE_RULE_COUNT - number,
    {
        let known = known_reference_rule(number);
        let source_read = ids.find(known.source_table).is_some();
        let target_read = ids.find(known.target_table).is_some();
        active.push(source_read && target_read);
        if source_read && target_read {
            count += 1;
        }
        if source_read && !target_read {
            let reason = if tables.find(known.target_table).is_some() {
                "is present but could not be read"
            } else {
                "is not present in the merged mod Pak"
            };
            let rest = cat3(" were not checked because the target table ", reason, ".");
            let warning = cat5(
                "References from ",
                known.source_table,
                ".",
                known.field,
                cat3(" to ", known.target_table, rest.as_str()).as_str(),
            );
            proof {
                texts_push(warnings@, warning);
            }
            warnings.push(warning);
        }
        number += 1;
    }
    (warnings, active, count)
}

fn is_source_active(ids: &OrderedMap<IdList>, active: &Vec<bool>, table: &str) -> (result: bool)
    requires
        active@.len() == REFERENCE_RULE_COUNT,
        forall|i: int| 0 <= i < REFERENCE_RULE_COUNT ==> active@[i] == rule_active(ids@, i),
    ensures
        result == source_active(ids@, table@, REFERENCE_RULE_COUNT as int),
{
    let mut found = false;
    let mut number: usize = 0;
    while number < REFERENCE_RULE_COUNT
        invariant
            number <= REFERENCE_RULE_COUNT,
            active@.len() == REFERENCE_RULE_COUNT,
            forall|i: int| 0 <= i < REFERENCE_RULE_COUNT ==> active@[i] == rule_active(ids@, i),
            found == source_active(ids@, table@, number as int),
        decreases REFERENCE_RULE_COUNT - number,
    {
        let known = known_reference_rule(number);
        if active[number] && same_text(known.source_table, table) {
            found = true;
        }
        number += 1;
    }
    found
}

fn count_checked_rows(ids: &OrderedMap<IdList>, active: &Vec<bool>) -> (result: usize)
    requires
        active@.len() == REFERENCE_RULE_COUNT,
        forall|i: int| 0 <= i < REFERENCE_RULE_COUNT ==> active@[i] == rule_active(ids@, i),
    ensures
        result == checked_rows(ids@, ids@),
{
    let ghost all = ids@;
    let mut count: usize = 0;
    let mut at: usize = 0;
    assert(all.take(0) =~= Seq::<(Seq<char>, Seq<i64>)>::empty());
    while at < ids.items.len()
        invariant
            at <= ids.items@.len(),
            all == ids@,
            active@.len() == REFERENCE_RULE_COUNT,
            forall|i: int| 0 <= i < REFERENCE_RULE_COUNT ==> active@[i] == rule_active(ids@, i),
            count == checked_rows(all, all.take(at as int)),
        decreases ids.items.len() - at,
    {
        proof {
            assert(all.take(at as int + 1).drop_last() =~= all.take(at as int));
            assert(all.take(at as int + 1).last() == all[at as int]);
        }
        if is_source_active(ids, active, ids.items[at].0.as_str()) {
            count = match count.checked_add(ids.items[at].1.ids.len()) {
                Some(sum) => sum,
                None => usize::MAX,
            };
        }
        at += 1;
    }
    assert(all.take(at as int) =~= all);
    count
}

/// Whether a link leads to a row that is there.
pub open spec fn leads_to_a_row(ids: Seq<(Seq<char>, Seq<i64>)>, link: PendingReference) -> bool {
    link.target_id <= i64::MAX && (get(ids, rule_of(link.rule_index as int).target_table) matches Some(
        list,
    ) && list.contains(link.target_id as i64))
}

/// Whether a link is broken.
pub open spec fn is_broken(ids: Seq<(Seq<char>, Seq<i64>)>, link: PendingReference) -> bool {
    rule_active(ids, link.rule_index as int) && !leads_to_a_row(ids, link)
}

/// How a broken link is named.
pub open spec fn broken_text(link: PendingReference) -> Seq<char> {
    let known = rule_of(link.rule_index as int);
    known.source_table + "."@ + known.field + " row "@ + (signed_dec(link.source_row as int)
        + " -> "@ + known.target_table + (" id "@ + dec(link.target_id as nat)))
}

/// How many of the first links are broken.
pub open spec fn broken_count(ids: Seq<(Seq<char>, Seq<i64>)>, links: Seq<PendingReference>) -> int
    decreases links.len(),
{
    if links.len() == 0 {
        0
    } else if is_broken(ids, links.last()) {
        broken_count(ids, links.drop_last()) + 1
    } else {
        broken_count(ids, links.drop_last())
    }
}

/// The broken links that are named, in the order of their texts.
pub open spec fn broken_examples(
    ids: Seq<(Seq<char>, Seq<i64>)>,
    links: Seq<PendingReference>,
) -> Seq<(Seq<char>, bool)>
    decreases links.len(),
{
    if links.len() == 0 {
        Seq::empty()
    } else {
        let before = broken_examples(ids, links.drop_last());
        if is_broken(ids, links.last()) && before.len() < MAX_REFERENCE_BREAK_EXAMPLES {
            put(before, broken_text(links.last()), true)
        } else {
            before
        }
    }
}

fn name_broken(link: PendingReference) -> (result: String)
    requires
        link.rule_index < REFERENCE_RULE_COUNT,
    ensures
        result@ == broken_text(link),
{
    let known = known_reference_rule(link.rule_index);
    let id = cat2(" id ", decimal(link.target_id).as_str());
    let rest = cat4(
        signed_decimal(link.source_row).as_str(),
        " -> ",
        known.target_table,
        id.as_str(),
    );
    cat5(known.source_table, ".", known.field, " row ", rest.as_str())
}

fn leads_somewhere(ids: &OrderedMap<IdList>, link: PendingReference) -> (result: bool)
    requires
        ids.well_formed(),
        lists_ascend(ids@),
        link.rule_index < REFERENCE_RULE_COUNT,
    ensures
        result == leads_to_a_row(ids@, link),
{
    if link.target_id > i64::MAX as u64 {
        return false;
    }
    let known = known_reference_rule(link.rule_index);
    match ids.find(known.target_table) {
        Some(at) => {
            assert(ids@[at as int].1 == ids.items@[at as int].1@);
            holds_id(&ids.items[at].1.ids, link.target_id as i64)
        },
        None => false,
    }
}

/// Every link names a rule.
pub open spec fn links_known(links: Seq<PendingReference>) -> bool {
    forall|i: int| 0 <= i < links.len() ==> (#[trigger] links[i]).rule_index < REFERENCE_RULE_COUNT
}

fn find_broken(ids: &OrderedMap<IdList>, active: &Vec<bool>, links: &Vec<PendingReference>) -> (result: (
    usize,
    Vec<String>,
))
    requires
        ids.well_formed(),
        lists_ascend(ids@),
        links_known(links@),
        active@.len() == REFERENCE_RULE_COUNT,
        forall|i: int| 0 <= i < REFERENCE_RULE_COUNT ==> active@[i] == rule_active(ids@, i),
    ensures
        result.0 == broken_count(ids@, links@),
        texts(result.1@) == keys(broken_examples(ids@, links@)),
{
    let mut count: usize = 0;
    let mut examples: OrderedMap<bool> = OrderedMap::new();
    let mut at: usize = 0;
    assert(links@.take(0) =~= Seq::<PendingReference>::empty());
    while at < links.len()
        invariant
            at <= links@.len(),
            ids.well_formed(),
            lists_ascend(ids@),
            links_known(links@),
            active@.len() == REFERENCE_RULE_COUNT,
            forall|i: int| 0 <= i < REFERENCE_RULE_COUNT ==> active@[i] == rule_active(ids@, i),
            count == broken_count(ids@, links@.take(at as int)),
            count <= at,
            examples.well_formed(),
            examples@ == broken_examples(ids@, links@.take(at as int)),
        decreases links.len() - at,
    {
        let link: PendingReference = links[at];
        proof {
            assert(links@.take(at as int + 1).drop_last() =~= links@.take(at as int));
            assert(links@.take(at as int + 1).last() == link);
            assert(links@[at as int].rule_index < REFERENCE_RULE_COUNT);
            assert(examples@.len() == examples.items@.len());
        }
        if active[link.rule_index] && !leads_somewhere(ids, link) {
            count += 1;
            if examples.items.len() < MAX_REFERENCE_BREAK_EXAMPLES {
                examples.insert(name_broken(link), true);
            }
        }
        at += 1;
    }
    assert(links@.take(at as int) =~= links@);
    (count, take_keys(examples))
}

proof fn row_links_known(done: Seq<PendingReference>, row: DatabaseRow, table: Seq<char>, number: int)
    requires
        0 <= number,
        links_known(done),
    ensures
        links_known(row_references(done, row, table, number)),
    decreases REFERENCE_RULE_COUNT - number,
{
    if number < REFERENCE_RULE_COUNT {
        if rule_of(number).source_table != table {
            row_links_known(done, row, table, number + 1);
        } else {
            match field_from(row.fields@, rule_of(number).field) {
                None => {
                    row_links_known(done, row, table, number + 1);
                },
                Some(node) => {
                    let more = leaf_references(positive_leaves(node), number as usize, row.id);
                    let next = done + more;
                    assert forall|i: int| 0 <= i < next.len() implies (
                    #[trigger] next[i]).rule_index < REFERENCE_RULE_COUNT by {
                        if i < done.len() {
                            assert(next[i] == done[i]);
                        } else {
                            assert(next[i] == more[i - done.len()]);
                        }
                    }
                    row_links_known(next, row, table, number + 1);
                },
            }
        }
    }
}

proof fn table_links_known(done: Seq<PendingReference>, rows: Seq<DatabaseRow>, table: Seq<char>)
    requires
        links_known(done),
    ensures
        links_known(table_references(done, rows, table)),
    decreases rows.len(),
{
    if rows.len() > 0 {
        row_links_known(done, rows[0], table, 0);
        table_links_known(row_references(done, rows[0], table, 0), rows.skip(1), table);
    }
}

proof fn all_links_known(
    state: TablesView,
    archive: PakArchiveView,
    tables: Seq<(Seq<char>, usize)>,
    readings: Seq<Reading>,
    at: int,
)
    requires
        links_known(state.references),
    ensures
        read_tables_from(state, archive, tables, readings, at) matches Ok(found) ==> links_known(
            found.references,
        ),
    decreases tables.len() - at,
{
    if at < tables.len() {
        let reading = table_reading(
            archive,
            archive.inventory.packages.packages[tables[at].1 as int],
            reading_at(readings, at),
        );
        match reading {
            Ok(Ok(asset)) => {
                table_links_known(state.references, asset.rows@, tables[at].0);
            },
            _ => {},
        }
        match with_table(state, tables[at].0, reading) {
            Ok(next) => {
                all_links_known(next, archive, tables, readings, at + 1);
            },
            Err(_) => {},
        }
    }
}

/// What is known once all tables were read.
pub open spec fn judged_links(tables: Seq<(Seq<char>, usize)>, found: TablesView) -> Outcome<
    Seq<Seq<char>>,
> {
    let broken = broken_count(found.ids, found.references);
    if broken != 0 {
        unverified(
            dec(broken as nat) + " reference(s) point to rows missing from the merged Pak. Examples: "@
                + joined(keys(broken_examples(found.ids, found.references)), "; "@),
        )
    } else {
        Ok(
            distinct(
                found.warnings + rule_warnings(tables, found.ids, REFERENCE_RULE_COUNT as int)
                    + seq![
                    "Reference checks: "@ + dec(
                        active_rules(found.ids, REFERENCE_RULE_COUNT as int) as nat,
                    ) + " rule(s), "@ + dec(checked_rows(found.ids, found.ids) as nat)
                        + " row(s)."@,
                    "Other game-specific links may still need in-game testing."@,
                ],
            ),
        )
    }
}

/// The links of the tables of an archive: a fault where one leads nowhere, or else
/// the warnings.
pub open spec fn known_references(archive: PakArchiveView, readings: Seq<Reading>) -> Outcome<
    Seq<Seq<char>>,
> {
    match tables_from(Seq::empty(), archive.inventory.packages.packages, 0) {
        Err(error) => Err(error),
        Ok(tables) => match table_bytes_from(0, archive, tables) {
            Err(error) => Err(error),
            Ok(total) => if total * 3 > u64::MAX {
                unverified("reference check size overflow"@)
            } else {
                match read_tables_from(
                    TablesView {
                        ids: Seq::empty(),
                        references: Seq::empty(),
                        warnings: Seq::empty(),
                    },
                    archive,
                    tables,
                    readings,
                    0,
                ) {
                    Err(error) => Err(error),
                    Ok(found) => judged_links(tables, found),
                }
            },
        },
    }
}

/// The outcome of a step that yields texts.
pub open spec fn same_texts_of(result: Result<Vec<String>>, wanted: Outcome<Seq<Seq<char>>>) -> bool {
    match (result, wanted) {
        (Ok(list), Ok(expected)) => texts(list@) == expected,
        (Err(error), Err(expected)) => error@ == expected,
        _ => false,
    }
}

fn judge_links(tables: &OrderedMap<usize>, found: Tables) -> (result: Result<Vec<String>>)
    requires
        tables.well_formed(),
        found.ids.well_formed(),
        lists_ascend(found.ids@),
        links_known(found.references@),
    ensures
        same_texts_of(result, judged_links(tables@, found@)),
{
    let (mut rule_texts, active, rules) = check_rules(tables, &found.ids);
    let (broken, examples) = find_broken(&found.ids, &active, &found.references);
    if broken != 0 {
        return Err(
            MergeError::Verification(
                cat3(
                    decimal_usize(broken).as_str(),
                    " reference(s) point to rows missing from the merged Pak. Examples: ",
                    join(&examples, "; ").as_str(),
                ),
            ),
        );
    }
    let rows: usize = count_checked_rows(&found.ids, &active);
    let ghost first = texts(found.warnings@);
    let ghost second = texts(rule_texts@);
    let summary = cat5(
        "Reference checks: ",
        decimal_usize(rules).as_str(),
        " rule(s), ",
        decimal_usize(rows).as_str(),
        " row(s).",
    );
    let other = "Other game-specific links may still need in-game testing.".to_owned();
    let mut warnings = found.warnings;
    warnings.append(&mut rule_texts);
    assert(texts(warnings@) =~= first + second);
    warnings.push(summary);
    warnings.push(other);
    assert(texts(warnings@) =~= first + second + seq![summary@, other@]);
    Ok(sort_distinct(&warnings))
}

/// Checks the links of the tables of an archive. `readings` holds what the reader
/// made of the tables, in the order of their names.
pub fn validate_known_references_in_archive(archive: &PakArchive, readings: Vec<Reading>) -> (result: Result<
    Vec<String>,
>)
    requires
        archive.well_formed(),
    ensures
        same_texts_of(result, known_references(archive@, readings@)),
{
    let tables = match find_tables(&archive.inventory.packages.packages) {
        Ok(tables) => tables,
        Err(error) => {
            return Err(error);
        },
    };
    let total: u64 = match sum_table_bytes(archive, &tables) {
        Ok(total) => total,
        Err(error) => {
            return Err(error);
        },
    };
    if total.checked_mul(3).is_none() {
        return Err(MergeError::Verification("reference check size overflow".to_owned()));
    }
    proof {
        all_links_known(
            TablesView { ids: Seq::empty(), references: Seq::empty(), warnings: Seq::empty() },
            archive@,
            tables@,
            readings@,
            0,
        );
    }
    let found = match read_tables(archive, &tables, readings) {
        Ok(found) => found,
        Err(error) => {
            return Err(error);
        },
    };
    judge_links(&tables, found)
}

/// The links of a merged Pak, where the plan is bound to the game whose links are
/// known.
pub open spec fn pinned_references(
    plan: MergePlanView,
    archive: PakArchiveView,
    readings: Seq<Reading>,
) -> Outcome<Seq<Seq<char>>> {
    if pinned_profile(plan) == Some(checked_profile()) {
        known_references(archive, readings)
    } else {
        Ok(seq!["Reference checks require the OCTOPATH TRAVELER 0 profile."@])
    }
}

/// Checks the links of a merged Pak.
pub fn validate_references_for_pinned_profile(
    plan: &MergePlan,
    archive: &PakArchive,
    readings: Vec<Reading>,
) -> (result: Result<Vec<String>>)
    requires
        archive.well_formed(),
    ensures
        same_texts_of(result, pinned_references(plan@, archive@, readings@)),
{
    let pinned = match pinned_profile_id(plan) {
        Some(id) => same_text(id.as_str(), "octopath_traveler_0"),
        None => false,
    };
    if pinned {
        return validate_known_references_in_archive(archive, readings);
    }
    let mut warnings: Vec<String> = Vec::new();
    warnings.push("Reference checks require the OCTOPATH TRAVELER 0 profile.".to_owned());
    assert(texts(warnings@) =~= seq![
        "Reference checks require the OCTOPATH TRAVELER 0 profile."@,
    ]);
    Ok(warnings)
}

/// The tables of an archive whose links are known, in the order in which they are
/// to be read.
pub fn reference_tables(archive: &PakArchive) -> (result: Result<OrderedMap<usize>>)
    ensures
        same_tables(
            result,
            tables_from(Seq::empty(), archive@.inventory.packages.packages, 0),
        ),
{
    find_tables(&archive.inventory.packages.packages)
}

proof fn counted_links(ids: Seq<(Seq<char>, Seq<i64>)>, links: Seq<PendingReference>)
    ensures
        broken_count(ids, links) >= 0,
        broken_count(ids, links) == 0 <==> forall|i: int|
            0 <= i < links.len() ==> !is_broken(ids, #[trigger] links[i]),
    decreases links.len(),
{
    if links.len() > 0 {
        let rest = links.drop_last();
        counted_links(ids, rest);
        if broken_count(ids, links) == 0 {
            assert forall|i: int| 0 <= i < links.len() implies !is_broken(
                ids,
                #[trigger] links[i],
            ) by {
                if i < rest.len() {
                    assert(links[i] == rest[i]);
                }
            }
        }
        if forall|i: int| 0 <= i < links.len() ==> !is_broken(ids, #[trigger] links[i]) {
            assert forall|i: int| 0 <= i < rest.len() implies !is_broken(
                ids,
                #[trigger] rest[i],
            ) by {
                assert(rest[i] == links[i]);
            }
            assert(links.last() == links[links.len() - 1]);
        }
    }
}

/// The tables of an archive pass exactly when every link that can be checked leads
/// to a row that is there.
pub proof fn links_pass_exactly_when_none_is_broken(
    tables: Seq<(Seq<char>, usize)>,
    found: TablesView,
)
    ensures
        judged_links(tables, found) is Ok <==> forall|i: int|
            0 <= i < found.references.len() && rule_active(
                found.ids,
                (#[trigger] found.references[i]).rule_index as int,
            ) ==> leads_to_a_row(found.ids, found.references[i]),
{
    counted_links(found.ids, found.references);
    if judged_links(tables, found) is Ok {
        assert forall|i: int|
            0 <= i < found.references.len() && rule_active(
                found.ids,
                (#[trigger] found.references[i]).rule_index as int,
            ) implies leads_to_a_row(found.ids, found.references[i]) by {
            assert(!is_broken(found.ids, found.references[i]));
        }
    } else {
        let i = choose|i: int|
            0 <= i < found.references.len() && is_broken(found.ids, #[trigger] found.references[i]);
        assert(is_broken(found.ids, found.references[i]));
    }
}

} // verus!
