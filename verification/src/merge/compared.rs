//! What a comparison tells: the plan of a job holds what is to be told of every row of
//! every database and of every other file, and nothing else.
use vstd::prelude::*;

use super::analyze::{
    analysis_of, by_conflict_id, gathered_from, outdated_entries, profile_warnings, with_output,
    GatheredView,
};
use super::database::{row_from, AtomicGroupView, DatabaseRow, ParsedDbProviderView, Reading};
use super::differences::{
    differences_of_a_row_are_told, differences_of_an_added_row_are_told, is_about,
    means_otherwise, offers_each_row, offers_each_value, rows_disagree, some_layout_differs, tells_of_row, tells_of_unit,
    tells_the_truth, what_is_told_of_a_row_is_so,
};
use super::error::MergeErrorView;
use super::group::{carrier_from, database_group, row_findings, rows_from};
use super::opened::{opened_at, OpenedPakView};
use super::placements::placement_collisions;
use super::providers::{AnalysisUnitView, GroupProviderView};
use super::row_ids::{all_ids_from, collected_ids_are_those_of_the_rows, holds_row};
use super::rows::{groups_of, DriftCount, RowFindingsView};
use super::types::{AnalysisRequestView, ConflictView, ProfileDetectionView};
use super::units::{outputs_from, readings_of, unit_output, units_of, AnalysisUnitOutputView};
use crate::ordered::values;
use crate::sorting::{sorted, sorted_is_an_ordering};

verus! {

/// The conflicts of several rows, one after the other.
pub open spec fn told_of_rows(parts: Seq<RowFindingsView>) -> Seq<ConflictView> {
    parts.map_values(|part: RowFindingsView| part.conflicts).flatten()
}

/// What was counted before a row.
pub open spec fn counted_before(start: DriftCount, parts: Seq<RowFindingsView>, at: int) -> DriftCount {
    if at == 0 {
        start
    } else {
        parts[at - 1].drift
    }
}

/// `parts` are the findings of the rows, each from what was counted before it.
pub open spec fn are_the_findings(
    parts: Seq<RowFindingsView>,
    start: DriftCount,
    opened: Seq<OpenedPakView>,
    parsed: Seq<ParsedDbProviderView>,
    carrier: int,
    asset_path: Seq<char>,
    ids: Seq<i64>,
) -> bool {
    &&& parts.len() == ids.len()
    &&& forall|i: int|
        0 <= i < ids.len() ==> row_findings(
            opened,
            parsed,
            carrier,
            asset_path,
            #[trigger] ids[i],
            counted_before(start, parts, i),
        ) == Ok::<RowFindingsView, MergeErrorView>(parts[i])
}

/// Comparing rows tells the findings of all of them, one after the other, behind what
/// was told before, and counts on from row to row.
pub proof fn every_row_is_compared(
    done: RowFindingsView,
    opened: Seq<OpenedPakView>,
    parsed: Seq<ParsedDbProviderView>,
    carrier: int,
    asset_path: Seq<char>,
    ids: Seq<i64>,
) -> (parts: Seq<RowFindingsView>)
    ensures
        rows_from(done, opened, parsed, carrier, asset_path, ids) matches Ok(found) ==> {
            &&& are_the_findings(parts, done.drift, opened, parsed, carrier, asset_path, ids)
            &&& found.conflicts == done.conflicts + told_of_rows(parts)
            &&& found.drift == counted_before(done.drift, parts, ids.len() as int)
        },
    decreases ids.len(),
{
    if ids.len() == 0 {
        let parts = Seq::<RowFindingsView>::empty();
        assert(done.conflicts + told_of_rows(parts) =~= done.conflicts);
        parts
    } else {
        match row_findings(opened, parsed, carrier, asset_path, ids[0], done.drift) {
            Err(_) => Seq::empty(),
            Ok(found) => {
                let next = RowFindingsView {
                    conflicts: done.conflicts + found.conflicts,
                    drift: found.drift,
                };
                let rest = every_row_is_compared(
                    next,
                    opened,
                    parsed,
                    carrier,
                    asset_path,
                    ids.skip(1),
                );
                let parts = seq![found] + rest;
                if let Ok(all) = rows_from(done, opened, parsed, carrier, asset_path, ids) {
                    assert(rows_from(next, opened, parsed, carrier, asset_path, ids.skip(1))
                        == Ok::<RowFindingsView, MergeErrorView>(all));
                    let lists = parts.map_values(|part: RowFindingsView| part.conflicts);
                    assert(lists.drop_first() =~= rest.map_values(
                        |part: RowFindingsView| part.conflicts,
                    ));
                    assert(lists.first() == found.conflicts);
                    assert(done.conflicts + told_of_rows(parts) =~= next.conflicts + told_of_rows(
                        rest,
                    ));
                    assert forall|i: int| 0 <= i < ids.len() implies row_findings(
                        opened,
                        parsed,
                        carrier,
                        asset_path,
                        #[trigger] ids[i],
                        counted_before(done.drift, parts, i),
                    ) == Ok::<RowFindingsView, MergeErrorView>(parts[i]) by {
                        if i > 0 {
                            assert(ids.skip(1)[i - 1] == ids[i]);
                            assert(counted_before(done.drift, parts, i) == counted_before(
                                next.drift,
                                rest,
                                i - 1,
                            ));
                        }
                    }
                }
                parts
            },
        }
    }
}

/// All that one list holds is in the other.
pub open spec fn is_within(part: Seq<ConflictView>, all: Seq<ConflictView>) -> bool {
    forall|i: int| 0 <= i < part.len() ==> all.contains(#[trigger] part[i])
}

/// What lists hold, one after the other, is what one of them holds.
pub proof fn flattened_lists_hold_each<A>(lists: Seq<Seq<A>>, item: A)
    ensures
        lists.flatten().contains(item) <==> exists|i: int|
            0 <= i < lists.len() && (#[trigger] lists[i]).contains(item),
    decreases lists.len(),
{
    if lists.len() > 0 {
        let first = lists.first();
        let rest = lists.drop_first();
        let all = lists.flatten();
        flattened_lists_hold_each(rest, item);
        assert(all == first + rest.flatten());
        if all.contains(item) {
            let at = choose|at: int| 0 <= at < all.len() && all[at] == item;
            if at < first.len() {
                assert(first[at] == item);
                assert(lists[0].contains(item));
            } else {
                assert(rest.flatten()[at - first.len()] == item);
                let i = choose|i: int| 0 <= i < rest.len() && (#[trigger] rest[i]).contains(item);
                assert(lists[i + 1] == rest[i]);
            }
        }
        if exists|i: int| 0 <= i < lists.len() && (#[trigger] lists[i]).contains(item) {
            let i = choose|i: int| 0 <= i < lists.len() && (#[trigger] lists[i]).contains(item);
            if i == 0 {
                let at = choose|at: int| 0 <= at < first.len() && first[at] == item;
                assert(all[at] == item);
            } else {
                assert(rest[i - 1] == lists[i]);
                let at = choose|at: int| 0 <= at < rest.flatten().len() && rest.flatten()[at] == item;
                assert(all[first.len() + at] == item);
            }
        }
    }
}

/// The provider is the base Pak; where the base Pak is none of the providers, the first
/// of them stands for it.
pub open spec fn is_base(parsed: Seq<ParsedDbProviderView>, carrier_index: usize, carrier: int) -> bool {
    &&& 0 <= carrier < parsed.len()
    &&& if parsed[carrier].input_index == carrier_index {
        forall|i: int|
            0 <= i < carrier ==> (#[trigger] parsed[i]).input_index != carrier_index
    } else {
        &&& carrier == 0
        &&& forall|i: int|
            0 <= i < parsed.len() ==> (#[trigger] parsed[i]).input_index != carrier_index
    }
}

/// Rows are compared with those of the base Pak.
pub proof fn rows_are_compared_with_the_base(
    parsed: Seq<ParsedDbProviderView>,
    carrier_index: usize,
    at: int,
)
    requires
        0 <= at <= parsed.len(),
        parsed.len() > 0,
        forall|i: int| 0 <= i < at ==> (#[trigger] parsed[i]).input_index != carrier_index,
    ensures
        is_base(parsed, carrier_index, carrier_from(parsed, carrier_index, at)),
    decreases parsed.len() - at,
{
    if at < parsed.len() && parsed[at].input_index != carrier_index {
        rows_are_compared_with_the_base(parsed, carrier_index, at + 1);
    }
}

proof fn rows_bear_their_ids(rows: Seq<DatabaseRow>, id: i64)
    ensures
        row_from(rows, id) matches Some(row) ==> row.id == id,
    decreases rows.len(),
{
    if rows.len() > 0 && rows[0].id != id {
        rows_bear_their_ids(rows.skip(1), id);
    }
}

/// A list of conflicts tells what there is to tell of the rows with an id. Where the
/// base Pak has the row: that it is laid out otherwise in another Pak, or else of each
/// unit by which another Pak means something else. Where it has not: that two Paks have
/// it in versions that mean different things.
pub open spec fn tells_of_id(
    conflicts: Seq<ConflictView>,
    opened: Seq<OpenedPakView>,
    parsed: Seq<ParsedDbProviderView>,
    carrier: int,
    asset_path: Seq<char>,
    row_id: i64,
) -> bool {
    match row_from(parsed[carrier].asset.rows@, row_id) {
        Some(row) => row.units matches Ok(units) && {
            let groups = groups_of(units@);
            if some_layout_differs(parsed, carrier, row, groups) {
                tells_of_row(conflicts, opened, parsed, asset_path, row_id, "__whole_row__"@)
            } else {
                forall|unit: int|
                    0 <= unit < groups.len() && (exists|provider: int| #[trigger]
                        means_otherwise(parsed, provider, carrier, row, groups[unit]))
                        ==> tells_of_unit(
                        conflicts,
                        opened,
                        parsed,
                        asset_path,
                        row_id,
                        #[trigger] groups[unit],
                    )
            }
        },
        None => (exists|left: int, right: int| #[trigger]
            rows_disagree(parsed, left, right, row_id)) ==> tells_of_row(
            conflicts,
            opened,
            parsed,
            asset_path,
            row_id,
            "$row"@,
        ),
    }
}

/// A conflict tells of the rows with an id something that is so.
pub open spec fn is_so_of_id(
    conflict: ConflictView,
    parsed: Seq<ParsedDbProviderView>,
    carrier: int,
    asset_path: Seq<char>,
    row_id: i64,
) -> bool {
    match row_from(parsed[carrier].asset.rows@, row_id) {
        Some(row) => row.units matches Ok(units) && tells_the_truth(
            conflict,
            parsed,
            carrier,
            asset_path,
            row,
            groups_of(units@),
        ),
        None => conflict.blocking && is_about(conflict, asset_path, row_id, "$row"@)
            && exists|left: int, right: int| #[trigger] rows_disagree(parsed, left, right, row_id),
    }
}

proof fn telling_carries_over(
    part: Seq<ConflictView>,
    all: Seq<ConflictView>,
    opened: Seq<OpenedPakView>,
    parsed: Seq<ParsedDbProviderView>,
    carrier: int,
    asset_path: Seq<char>,
    row_id: i64,
)
    requires
        is_within(part, all),
        tells_of_id(part, opened, parsed, carrier, asset_path, row_id),
    ensures
        tells_of_id(all, opened, parsed, carrier, asset_path, row_id),
{
    assert forall|group_id: Seq<char>| #[trigger]
        tells_of_row(part, opened, parsed, asset_path, row_id, group_id) implies tells_of_row(
        all,
        opened,
        parsed,
        asset_path,
        row_id,
        group_id,
    ) by {
        let i = choose|i: int|
            0 <= i < part.len() && (#[trigger] part[i]).blocking && is_about(
                part[i],
                asset_path,
                row_id,
                group_id,
            ) && offers_each_row(part[i], opened, parsed, row_id);
        assert(all.contains(part[i]));
        let j = choose|j: int| 0 <= j < all.len() && all[j] == part[i];
        assert(all[j].blocking);
    }
    assert forall|group: AtomicGroupView| #[trigger]
        tells_of_unit(part, opened, parsed, asset_path, row_id, group) implies tells_of_unit(
        all,
        opened,
        parsed,
        asset_path,
        row_id,
        group,
    ) by {
        let i = choose|i: int|
            0 <= i < part.len() && (#[trigger] part[i]).blocking && is_about(
                part[i],
                asset_path,
                row_id,
                group.id,
            ) && offers_each_value(part[i], opened, parsed, row_id, group);
        assert(all.contains(part[i]));
        let j = choose|j: int| 0 <= j < all.len() && all[j] == part[i];
        assert(all[j].blocking);
    }
    if let Some(row) = row_from(parsed[carrier].asset.rows@, row_id) {
        let groups = groups_of(row.units->Ok_0@);
        if !some_layout_differs(parsed, carrier, row, groups) {
            assert forall|unit: int|
                0 <= unit < groups.len() && (exists|provider: int| #[trigger]
                    means_otherwise(
                        parsed,
                        provider,
                        carrier,
                        row,
                        groups[unit],
                    )) implies tells_of_unit(
                all,
                opened,
                parsed,
                asset_path,
                row_id,
                #[trigger] groups[unit],
            ) by {
                assert(tells_of_unit(part, opened, parsed, asset_path, row_id, groups[unit]));
            }
        }
    }
}

proof fn findings_tell_of_their_row(
    opened: Seq<OpenedPakView>,
    parsed: Seq<ParsedDbProviderView>,
    carrier: int,
    asset_path: Seq<char>,
    row_id: i64,
    drift: DriftCount,
)
    requires
        0 <= carrier < parsed.len(),
    ensures
        row_findings(opened, parsed, carrier, asset_path, row_id, drift) matches Ok(found) ==> {
            &&& tells_of_id(found.conflicts, opened, parsed, carrier, asset_path, row_id)
            &&& forall|i: int|
                0 <= i < found.conflicts.len() ==> is_so_of_id(
                    #[trigger] found.conflicts[i],
                    parsed,
                    carrier,
                    asset_path,
                    row_id,
                )
        },
{
    if let Ok(found) = row_findings(opened, parsed, carrier, asset_path, row_id, drift) {
        rows_bear_their_ids(parsed[carrier].asset.rows@, row_id);
        match row_from(parsed[carrier].asset.rows@, row_id) {
            Some(row) => {
                let units = row.units->Ok_0;
                assert(units.len() == units@.len());
                let groups = groups_of(units@);
                differences_of_a_row_are_told(
                    opened,
                    parsed,
                    carrier,
                    asset_path,
                    row,
                    drift,
                    units,
                    0,
                );
                assert forall|unit: int|
                    !some_layout_differs(parsed, carrier, row, groups) && 0 <= unit < groups.len()
                        && (exists|provider: int| #[trigger]
                        means_otherwise(
                            parsed,
                            provider,
                            carrier,
                            row,
                            groups[unit],
                        )) implies tells_of_unit(
                    found.conflicts,
                    opened,
                    parsed,
                    asset_path,
                    row_id,
                    #[trigger] groups[unit],
                ) by {
                    differences_of_a_row_are_told(
                        opened,
                        parsed,
                        carrier,
                        asset_path,
                        row,
                        drift,
                        units,
                        unit,
                    );
                }
                assert forall|i: int| 0 <= i < found.conflicts.len() implies is_so_of_id(
                    #[trigger] found.conflicts[i],
                    parsed,
                    carrier,
                    asset_path,
                    row_id,
                ) by {
                    what_is_told_of_a_row_is_so(
                        opened,
                        parsed,
                        carrier,
                        asset_path,
                        row,
                        drift,
                        units,
                        i,
                    );
                }
            },
            None => {
                differences_of_an_added_row_are_told(opened, parsed, asset_path, row_id);
            },
        }
    }
}

/// The comparison of a database tells what there is to tell of the rows with any id,
/// and what it tells is so of some row, or is a placement that may collide.
pub proof fn every_difference_is_told(
    opened: Seq<OpenedPakView>,
    providers: Seq<GroupProviderView>,
    carrier_index: usize,
    readings: Seq<Reading>,
)
    ensures
        database_group(opened, providers, carrier_index, readings) matches Ok(group)
            ==> group.parsed.len() > 0 ==> exists|carrier: int| #[trigger]
            is_base(group.parsed, carrier_index, carrier) && tells_exactly(
                group.conflicts,
                opened,
                group.parsed,
                carrier,
            ),
{
    match database_group(opened, providers, carrier_index, readings) {
        Err(_) => {},
        Ok(group) => {
            if group.parsed.len() > 0 {
                let parsed = group.parsed;
                let carrier = carrier_from(parsed, carrier_index, 0);
                let asset_path = parsed[carrier].group.base_path;
                rows_are_compared_with_the_base(parsed, carrier_index, 0);
                compared_groups_tell_exactly(opened, parsed, carrier, group.conflicts);
                assert(is_base(parsed, carrier_index, carrier));
            }
        },
    }
}

/// A list of conflicts tells all there is to tell of the rows of a database, and
/// nothing else but placements that may collide.
pub open spec fn tells_exactly(
    conflicts: Seq<ConflictView>,
    opened: Seq<OpenedPakView>,
    parsed: Seq<ParsedDbProviderView>,
    carrier: int,
) -> bool {
    let asset_path = parsed[carrier].group.base_path;
    &&& forall|row_id: i64| #[trigger]
        tells_of_id(conflicts, opened, parsed, carrier, asset_path, row_id)
    &&& forall|i: int|
        0 <= i < conflicts.len() ==> placement_collisions(opened, parsed, asset_path).0.contains(
            #[trigger] conflicts[i],
        ) || exists|row_id: i64| #[trigger]
            is_so_of_id(conflicts[i], parsed, carrier, asset_path, row_id)
    &&& is_within(placement_collisions(opened, parsed, asset_path).0, conflicts)
}

/// Where the findings of a row are part of a list, the list tells of the row.
proof fn lists_tell_of_a_row(
    conflicts: Seq<ConflictView>,
    part: RowFindingsView,
    opened: Seq<OpenedPakView>,
    parsed: Seq<ParsedDbProviderView>,
    carrier: int,
    asset_path: Seq<char>,
    row_id: i64,
    drift: DriftCount,
)
    requires
        0 <= carrier < parsed.len(),
        is_within(part.conflicts, conflicts),
        row_findings(opened, parsed, carrier, asset_path, row_id, drift) == Ok::<
            RowFindingsView,
            MergeErrorView,
        >(part),
    ensures
        tells_of_id(conflicts, opened, parsed, carrier, asset_path, row_id),
{
    findings_tell_of_their_row(opened, parsed, carrier, asset_path, row_id, drift);
    telling_carries_over(
        part.conflicts,
        conflicts,
        opened,
        parsed,
        carrier,
        asset_path,
        row_id,
    );
}

/// Of a row that nobody has there is nothing to tell.
proof fn absent_rows_are_not_told(
    conflicts: Seq<ConflictView>,
    opened: Seq<OpenedPakView>,
    parsed: Seq<ParsedDbProviderView>,
    carrier: int,
    asset_path: Seq<char>,
    row_id: i64,
)
    requires
        0 <= carrier < parsed.len(),
        forall|provider: int| !#[trigger] holds_row(parsed, provider, row_id),
    ensures
        tells_of_id(conflicts, opened, parsed, carrier, asset_path, row_id),
{
    assert(!holds_row(parsed, carrier, row_id));
    assert forall|left: int, right: int| !#[trigger]
        rows_disagree(parsed, left, right, row_id) by {
        assert(!holds_row(parsed, left, row_id));
    }
}

proof fn told_conflict_is_so(
    item: ConflictView,
    part: RowFindingsView,
    opened: Seq<OpenedPakView>,
    parsed: Seq<ParsedDbProviderView>,
    carrier: int,
    asset_path: Seq<char>,
    row_id: i64,
    drift: DriftCount,
)
    requires
        0 <= carrier < parsed.len(),
        part.conflicts.contains(item),
        row_findings(opened, parsed, carrier, asset_path, row_id, drift) == Ok::<
            RowFindingsView,
            MergeErrorView,
        >(part),
    ensures
        is_so_of_id(item, parsed, carrier, asset_path, row_id),
{
    findings_tell_of_their_row(opened, parsed, carrier, asset_path, row_id, drift);
    let j = choose|j: int| 0 <= j < part.conflicts.len() && part.conflicts[j] == item;
    assert(is_so_of_id(part.conflicts[j], parsed, carrier, asset_path, row_id));
}

/// The list of what was found in parts, with more behind it, holds each part, and what
/// it holds is in a part or in what is behind.
proof fn parts_are_within(
    conflicts: Seq<ConflictView>,
    parts: Seq<RowFindingsView>,
    placed: Seq<ConflictView>,
)
    requires
        conflicts == told_of_rows(parts) + placed,
    ensures
        forall|at: int|
            0 <= at < parts.len() ==> is_within((#[trigger] parts[at]).conflicts, conflicts),
        forall|i: int|
            0 <= i < conflicts.len() ==> placed.contains(#[trigger] conflicts[i]) || exists|
                at: int,
            |
                0 <= at < parts.len() && (#[trigger] parts[at]).conflicts.contains(conflicts[i]),
        is_within(placed, conflicts),
{
    let lists = parts.map_values(|part: RowFindingsView| part.conflicts);
    let found = lists.flatten();
    assert forall|at: int| 0 <= at < parts.len() implies is_within(
        (#[trigger] parts[at]).conflicts,
        conflicts,
    ) by {
        assert forall|i: int| 0 <= i < parts[at].conflicts.len() implies conflicts.contains(
            #[trigger] parts[at].conflicts[i],
        ) by {
            let item = parts[at].conflicts[i];
            flattened_lists_hold_each(lists, item);
            assert(lists[at].contains(item));
            let j = choose|j: int| 0 <= j < found.len() && found[j] == item;
            assert(conflicts[j] == item);
        }
    }
    assert forall|i: int| 0 <= i < conflicts.len() implies placed.contains(#[trigger] conflicts[i])
        || exists|at: int|
        0 <= at < parts.len() && (#[trigger] parts[at]).conflicts.contains(conflicts[i]) by {
        let item = conflicts[i];
        if i < found.len() {
            assert(found[i] == item);
            flattened_lists_hold_each(lists, item);
            let at = choose|at: int| 0 <= at < lists.len() && (#[trigger] lists[at]).contains(item);
            assert(parts[at].conflicts.contains(item));
        } else {
            assert(placed[i - found.len()] == item);
        }
    }
    assert forall|i: int| 0 <= i < placed.len() implies conflicts.contains(#[trigger] placed[i]) by {
        assert(conflicts[found.len() + i] == placed[i]);
    }
}

proof fn compared_groups_tell_exactly(
    opened: Seq<OpenedPakView>,
    parsed: Seq<ParsedDbProviderView>,
    carrier: int,
    conflicts: Seq<ConflictView>,
)
    requires
        0 <= carrier < parsed.len(),
        rows_from(
            RowFindingsView { conflicts: Seq::empty(), drift: DriftCount { count: 0, samples: 0 } },
            opened,
            parsed,
            carrier,
            parsed[carrier].group.base_path,
            all_ids_from(Seq::empty(), parsed),
        ) matches Ok(found) && conflicts == found.conflicts + placement_collisions(
            opened,
            parsed,
            parsed[carrier].group.base_path,
        ).0,
    ensures
        tells_exactly(conflicts, opened, parsed, carrier),
{
    let asset_path = parsed[carrier].group.base_path;
    let ids = all_ids_from(Seq::empty(), parsed);
    let start = RowFindingsView {
        conflicts: Seq::empty(),
        drift: DriftCount { count: 0, samples: 0 },
    };
    let found = rows_from(start, opened, parsed, carrier, asset_path, ids)->Ok_0;
    let placed = placement_collisions(opened, parsed, asset_path).0;
    let parts = every_row_is_compared(start, opened, parsed, carrier, asset_path, ids);
    assert(found.conflicts =~= told_of_rows(parts));
    parts_are_within(conflicts, parts, placed);
    assert forall|row_id: i64| #[trigger]
        tells_of_id(conflicts, opened, parsed, carrier, asset_path, row_id) by {
        collected_ids_are_those_of_the_rows(parsed, row_id);
        if ids.contains(row_id) {
            let at = choose|at: int| 0 <= at < ids.len() && ids[at] == row_id;
            lists_tell_of_a_row(
                conflicts,
                parts[at],
                opened,
                parsed,
                carrier,
                asset_path,
                ids[at],
                counted_before(start.drift, parts, at),
            );
        } else {
            absent_rows_are_not_told(conflicts, opened, parsed, carrier, asset_path, row_id);
        }
    }
    assert forall|i: int| 0 <= i < conflicts.len() implies placed.contains(#[trigger] conflicts[i])
        || exists|row_id: i64| #[trigger]
        is_so_of_id(conflicts[i], parsed, carrier, asset_path, row_id) by {
        if !placed.contains(conflicts[i]) {
            let at = choose|at: int|
                0 <= at < parts.len() && (#[trigger] parts[at]).conflicts.contains(conflicts[i]);
            told_conflict_is_so(
                conflicts[i],
                parts[at],
                opened,
                parsed,
                carrier,
                asset_path,
                ids[at],
                counted_before(start.drift, parts, at),
            );
        }
    }
}

/// The conflicts of several units, one after the other.
pub open spec fn told_of_units(outputs: Seq<AnalysisUnitOutputView>) -> Seq<ConflictView> {
    outputs.map_values(|output: AnalysisUnitOutputView| output.conflicts).flatten()
}

proof fn outputs_are_those_of_the_units(
    done: Seq<AnalysisUnitOutputView>,
    opened: Seq<OpenedPakView>,
    units: Seq<AnalysisUnitView>,
    carrier_index: usize,
    readings: Seq<Vec<Reading>>,
    at: int,
)
    requires
        0 <= at <= units.len(),
        done.len() == at,
        are_the_outputs(done, opened, units.take(at), carrier_index, readings),
    ensures
        outputs_from(done, opened, units, carrier_index, readings, at) matches Ok(outputs)
            ==> are_the_outputs(outputs, opened, units, carrier_index, readings),
    decreases units.len() - at,
{
    if at < units.len() {
        match unit_output(opened, units[at], carrier_index, readings_of(readings, at)) {
            Err(_) => {},
            Ok(output) => {
                let more = done.push(output);
                let front = units.take(at + 1);
                assert forall|u: int| 0 <= u < front.len() implies unit_output(
                    opened,
                    #[trigger] front[u],
                    carrier_index,
                    readings_of(readings, u),
                ) == Ok::<AnalysisUnitOutputView, MergeErrorView>(more[u]) by {
                    if u < at {
                        assert(units.take(at)[u] == front[u]);
                    }
                }
                outputs_are_those_of_the_units(
                    more,
                    opened,
                    units,
                    carrier_index,
                    readings,
                    at + 1,
                );
            },
        }
    } else {
        assert(units.take(at) =~= units);
    }
}

/// Each of the outputs is what the unit in its place yields.
pub open spec fn are_the_outputs(
    outputs: Seq<AnalysisUnitOutputView>,
    opened: Seq<OpenedPakView>,
    units: Seq<AnalysisUnitView>,
    carrier_index: usize,
    readings: Seq<Vec<Reading>>,
) -> bool {
    &&& outputs.len() == units.len()
    &&& forall|u: int|
        0 <= u < units.len() ==> unit_output(
            opened,
            #[trigger] units[u],
            carrier_index,
            readings_of(readings, u),
        ) == Ok::<AnalysisUnitOutputView, MergeErrorView>(outputs[u])
}

proof fn gathering_keeps_the_conflicts(
    state: GatheredView,
    outputs: Seq<AnalysisUnitOutputView>,
)
    ensures
        gathered_from(state, outputs) matches Ok(all) ==> all.conflicts == state.conflicts
            + told_of_units(outputs),
    decreases outputs.len(),
{
    if outputs.len() == 0 {
        assert(state.conflicts + told_of_units(outputs) =~= state.conflicts);
    } else {
        match with_output(state, outputs[0]) {
            Err(_) => {},
            Ok(next) => {
                let rest = outputs.skip(1);
                gathering_keeps_the_conflicts(next, rest);
                let lists = outputs.map_values(
                    |output: AnalysisUnitOutputView| output.conflicts,
                );
                assert(lists.drop_first() =~= rest.map_values(
                    |output: AnalysisUnitOutputView| output.conflicts,
                ));
                assert(lists.first() == outputs[0].conflicts);
                assert(state.conflicts + told_of_units(outputs) =~= next.conflicts + told_of_units(
                    rest,
                ));
            },
        }
    }
}

/// A list of conflicts is made up of those of the outputs.
pub open spec fn gathers(
    conflicts: Seq<ConflictView>,
    outputs: Seq<AnalysisUnitOutputView>,
) -> bool {
    &&& conflicts.len() == told_of_units(outputs).len()
    &&& forall|u: int| 0 <= u < outputs.len() ==> is_within((#[trigger] outputs[u]).conflicts, conflicts)
    &&& forall|i: int|
        0 <= i < conflicts.len() ==> exists|u: int|
            0 <= u < outputs.len() && (#[trigger] outputs[u]).conflicts.contains(
                #[trigger] conflicts[i],
            )
}

proof fn sorted_conflicts_are_the_same(conflicts: Seq<ConflictView>)
    ensures
        values(sorted(by_conflict_id(conflicts))).len() == conflicts.len(),
        forall|item: ConflictView| #[trigger]
            values(sorted(by_conflict_id(conflicts))).contains(item) <==> conflicts.contains(item),
{
    broadcast use vstd::seq_lib::group_to_multiset_ensures;

    let items = by_conflict_id(conflicts);
    let order = sorted(items);
    sorted_is_an_ordering(items);
    assert forall|item: ConflictView| #[trigger] values(order).contains(item) <==> conflicts.contains(
        item,
    ) by {
        if conflicts.contains(item) {
            let i = choose|i: int| 0 <= i < conflicts.len() && conflicts[i] == item;
            assert(items[i].1 == item);
            assert(items.contains(items[i]));
            assert(order.to_multiset().count(items[i]) > 0);
            assert(order.contains(items[i]));
            let j = choose|j: int| 0 <= j < order.len() && order[j] == items[i];
            assert(values(order)[j] == item);
        }
        if values(order).contains(item) {
            let j = choose|j: int| 0 <= j < order.len() && values(order)[j] == item;
            assert(order.contains(order[j]));
            assert(items.to_multiset().count(order[j]) > 0);
            assert(items.contains(order[j]));
            let i = choose|i: int| 0 <= i < items.len() && items[i] == order[j];
            assert(conflicts[i] == item);
        }
    }
}

/// The plan of a job holds the conflicts of all of its units, as many as they are, and
/// no others.
pub proof fn plans_hold_the_conflicts_of_all_units(
    request: AnalysisRequestView,
    opened: Seq<OpenedPakView>,
    detection: ProfileDetectionView,
    readings: Seq<Vec<Reading>>,
    steps_per_unit: int,
) -> (outputs: Seq<AnalysisUnitOutputView>)
    ensures
        analysis_of(request, opened, detection, readings, steps_per_unit) matches Ok(found)
            ==> are_the_outputs(
            outputs,
            opened,
            units_of(opened),
            opened_at(opened, request.carrier_path)->0 as usize,
            readings,
        ) && gathers(found.plan.conflicts, outputs),
{
    match analysis_of(request, opened, detection, readings, steps_per_unit) {
        Err(_) => Seq::empty(),
        Ok(found) => {
            let units = units_of(opened);
            let carrier = opened_at(opened, request.carrier_path)->0 as usize;
            let none = Seq::<AnalysisUnitOutputView>::empty();
            outputs_are_those_of_the_units(none, opened, units, carrier, readings, 0);
            let outputs = outputs_from(none, opened, units, carrier, readings, 0)->Ok_0;
            let start = GatheredView {
                assets: Seq::empty(),
                conflicts: Seq::empty(),
                warnings: outdated_entries(opened) + profile_warnings(detection),
                databases: Seq::empty(),
                cached_bytes: 0,
            };
            gathering_keeps_the_conflicts(start, outputs);
            let all = gathered_from(start, outputs)->Ok_0.conflicts;
            let lists = outputs.map_values(|output: AnalysisUnitOutputView| output.conflicts);
            assert(all =~= lists.flatten());
            sorted_conflicts_are_the_same(all);
            let plan = found.plan.conflicts;
            assert forall|u: int| 0 <= u < outputs.len() implies is_within(
                (#[trigger] outputs[u]).conflicts,
                plan,
            ) by {
                assert forall|i: int| 0 <= i < outputs[u].conflicts.len() implies plan.contains(
                    #[trigger] outputs[u].conflicts[i],
                ) by {
                    let item = outputs[u].conflicts[i];
                    flattened_lists_hold_each(lists, item);
                    assert(lists[u].contains(item));
                }
            }
            assert forall|i: int| 0 <= i < plan.len() implies exists|u: int|
                0 <= u < outputs.len() && (#[trigger] outputs[u]).conflicts.contains(
                    #[trigger] plan[i],
                ) by {
                let item = plan[i];
                assert(plan.contains(item));
                flattened_lists_hold_each(lists, item);
                let u = choose|u: int| 0 <= u < lists.len() && (#[trigger] lists[u]).contains(item);
                assert(outputs[u].conflicts.contains(item));
            }
            outputs
        },
    }
}

/// For every database that is merged, the plan of a job tells what there is to tell of
/// the rows with any id: wherever another Pak means something else by a unit of any row
/// than the base Pak, the plan has a blocking conflict about that unit of that row.
pub proof fn plans_tell_of_every_difference(
    request: AnalysisRequestView,
    opened: Seq<OpenedPakView>,
    detection: ProfileDetectionView,
    readings: Seq<Vec<Reading>>,
    steps_per_unit: int,
    u: int,
)
    requires
        0 <= u < units_of(opened).len(),
    ensures
        analysis_of(request, opened, detection, readings, steps_per_unit) matches Ok(found) ==> {
            let base = opened_at(opened, request.carrier_path)->0 as usize;
            unit_output(opened, units_of(opened)[u], base, readings_of(readings, u)) matches Ok(
                output,
            ) && is_within(output.conflicts, found.plan.conflicts) && (
            output.parsed_database matches Some(database) ==> database.providers.len() > 0
                ==> exists|carrier: int| #[trigger]
                is_base(database.providers, base, carrier) && tells_of_all(
                    found.plan.conflicts,
                    opened,
                    database.providers,
                    carrier,
                ))
        },
{
    if let Ok(found) = analysis_of(request, opened, detection, readings, steps_per_unit) {
        let outputs = plans_hold_the_conflicts_of_all_units(
            request,
            opened,
            detection,
            readings,
            steps_per_unit,
        );
        let base = opened_at(opened, request.carrier_path)->0 as usize;
        let unit = units_of(opened)[u];
        let output = outputs[u];
        assert(unit_output(opened, unit, base, readings_of(readings, u)) == Ok::<
            AnalysisUnitOutputView,
            MergeErrorView,
        >(output));
        reveal(unit_output);
        match unit {
            AnalysisUnitView::Loose(_) => {},
            AnalysisUnitView::Package(list) => {
                if let Some(database) = output.parsed_database {
                    let parsed = database.providers;
                    every_difference_is_told(opened, list, base, readings_of(readings, u));
                    if parsed.len() > 0 {
                        let carrier = choose|carrier: int| #[trigger]
                            is_base(parsed, base, carrier) && tells_exactly(
                                output.conflicts,
                                opened,
                                parsed,
                                carrier,
                            );
                        let path = parsed[carrier].group.base_path;
                        assert forall|row_id: i64| #[trigger]
                            tells_of_id(
                                found.plan.conflicts,
                                opened,
                                parsed,
                                carrier,
                                path,
                                row_id,
                            ) by {
                            assert(tells_of_id(
                                output.conflicts,
                                opened,
                                parsed,
                                carrier,
                                path,
                                row_id,
                            ));
                            telling_carries_over(
                                output.conflicts,
                                found.plan.conflicts,
                                opened,
                                parsed,
                                carrier,
                                path,
                                row_id,
                            );
                        }
                        assert(is_base(parsed, base, carrier));
                    }
                }
            },
        }
    }
}

/// A list of conflicts tells what there is to tell of the rows with any id.
pub open spec fn tells_of_all(
    conflicts: Seq<ConflictView>,
    opened: Seq<OpenedPakView>,
    parsed: Seq<ParsedDbProviderView>,
    carrier: int,
) -> bool {
    forall|row_id: i64| #[trigger]
        tells_of_id(
            conflicts,
            opened,
            parsed,
            carrier,
            parsed[carrier].group.base_path,
            row_id,
        )
}

} // verus!
