//! The comparison of a database that several inputs provide, row by row.
use vstd::prelude::*;

use super::conflicts::{count_allowed, ensure_conflict_count, MAX_PLAN_CONFLICTS};
use super::database::{
    database_provider_bytes, indexed_row, load_cached_database, loaded, parsed_well,
    provider_bytes_from, readings_well, row_from, shells_compatible,
    validate_database_shell_compatibility, ParsedDbProvider, ParsedDbProviderView, Reading,
};
use super::error::{seen, MergeError, MergeErrorView, Outcome, Result};
use super::opened::{all_well_formed, OpenedPak, OpenedPakView};
use super::placements::{analyze_potential_npc_placement_collisions, placement_collisions};
use super::progress::{
    database_analysis_phase_progress, phase_steps, reports_row, should_report_database_progress,
    AnalysisUnitProgress,
};
use super::providers::{package_asset_plan, package_plan, GroupProvider, GroupProviderView};
use super::row_ids::{all_ids_from, collect_row_ids};
use super::rows::{
    added_row_findings, carrier_row_findings, compare_added_row, compare_carrier_row, DriftCount,
    RowFindings, RowFindingsView,
};
use super::types::{AssetActionKind, AssetPlan, AssetPlanView, Conflict, ConflictView};
use crate::lists::{extend_list, views};
use crate::text::{
    cat2, cat3, cat5, clone_texts, dec, decimal, decimal_usize, signed_dec, signed_decimal,
    text_view, texts, texts_push,
};

verus! {

/// The conflicts of a group with those that one more row brings, if the limit
/// allows them.
pub open spec fn joined_conflicts(done: Seq<ConflictView>, more: Seq<ConflictView>) -> Outcome<
    Seq<ConflictView>,
> {
    if done.len() + more.len() > MAX_PLAN_CONFLICTS {
        Err(
            MergeErrorView::TooManyConflicts {
                actual: (MAX_PLAN_CONFLICTS + 1) as usize,
                limit: MAX_PLAN_CONFLICTS,
            },
        )
    } else {
        Ok(done + more)
    }
}

fn join_conflicts(conflicts: &mut Vec<Conflict>, more: &Vec<Conflict>) -> (result: Result<()>)
    requires
        old(conflicts)@.len() <= MAX_PLAN_CONFLICTS,
    ensures
        match (result, joined_conflicts(views(old(conflicts)@), views(more@))) {
            (Ok(_), Ok(wanted)) => views(final(conflicts)@) == wanted && final(conflicts)@.len()
                <= MAX_PLAN_CONFLICTS,
            (Err(error), Err(wanted)) => error@ == wanted,
            _ => false,
        },
{
    let room: usize = MAX_PLAN_CONFLICTS - conflicts.len();
    if more.len() > room {
        return Err(
            MergeError::TooManyConflicts {
                actual: MAX_PLAN_CONFLICTS + 1,
                limit: MAX_PLAN_CONFLICTS,
            },
        );
    }
    extend_list(conflicts, more);
    proof {
        assert(views(conflicts@).len() == conflicts@.len());
    }
    Ok(())
}

/// The findings of all rows from those of `ids` on.
pub open spec fn rows_from(
    done: RowFindingsView,
    opened: Seq<OpenedPakView>,
    parsed: Seq<ParsedDbProviderView>,
    carrier: int,
    asset_path: Seq<char>,
    ids: Seq<i64>,
) -> Outcome<RowFindingsView>
    decreases ids.len(),
{
    if ids.len() == 0 {
        Ok(done)
    } else {
        match row_findings(opened, parsed, carrier, asset_path, ids[0], done.drift) {
            Err(error) => Err(error),
            Ok(found) => match joined_conflicts(done.conflicts, found.conflicts) {
                Err(error) => Err(error),
                Ok(conflicts) => rows_from(
                    RowFindingsView { conflicts, drift: found.drift },
                    opened,
                    parsed,
                    carrier,
                    asset_path,
                    ids.skip(1),
                ),
            },
        }
    }
}

/// The findings of one row.
pub open spec fn row_findings(
    opened: Seq<OpenedPakView>,
    parsed: Seq<ParsedDbProviderView>,
    carrier: int,
    asset_path: Seq<char>,
    row_id: i64,
    drift: DriftCount,
) -> Outcome<RowFindingsView> {
    match row_from(parsed[carrier].asset.rows@, row_id) {
        Some(row) => carrier_row_findings(opened, parsed, carrier, asset_path, row, drift),
        None => Ok(
            RowFindingsView {
                conflicts: added_row_findings(opened, parsed, asset_path, row_id),
                drift,
            },
        ),
    }
}

fn compare_row(
    opened: &Vec<OpenedPak>,
    parsed: &Vec<ParsedDbProvider>,
    carrier_local: usize,
    asset_path: &str,
    row_id: i64,
    drift: DriftCount,
) -> (result: Result<RowFindings>)
    requires
        parsed_well(parsed@, opened@.len()),
        carrier_local < parsed@.len(),
    ensures
        seen(result) == row_findings(
            views(opened@),
            views(parsed@),
            carrier_local as int,
            asset_path@,
            row_id,
            drift,
        ),
{
    assert(views(parsed@)[carrier_local as int] == parsed@[carrier_local as int]@);
    match indexed_row(&parsed[carrier_local].asset, row_id) {
        Some(row) => compare_carrier_row(opened, parsed, carrier_local, asset_path, row, drift),
        None => Ok(
            RowFindings {
                conflicts: compare_added_row(opened, parsed, asset_path, row_id),
                drift,
            },
        ),
    }
}

#[verifier::loop_isolation(false)]
fn compare_rows(
    opened: &Vec<OpenedPak>,
    parsed: &Vec<ParsedDbProvider>,
    carrier_local: usize,
    asset_path: &str,
    ids: &Vec<i64>,
) -> (result: Result<RowFindings>)
    requires
        parsed_well(parsed@, opened@.len()),
        carrier_local < parsed@.len(),
    ensures
        seen(result) == rows_from(
            RowFindingsView { conflicts: Seq::empty(), drift: DriftCount { count: 0, samples: 0 } },
            views(opened@),
            views(parsed@),
            carrier_local as int,
            asset_path@,
            ids@,
        ),
{
    let ghost inputs = views(opened@);
    let ghost all = views(parsed@);
    let ghost start = RowFindingsView {
        conflicts: Seq::empty(),
        drift: DriftCount { count: 0, samples: 0 },
    };
    let mut conflicts: Vec<Conflict> = Vec::new();
    let mut drift = DriftCount { count: 0, samples: 0 };
    let mut at: usize = 0;
    proof {
        assert(ids@.skip(0) =~= ids@);
        assert(views(conflicts@) =~= Seq::<ConflictView>::empty());
    }
    while at < ids.len()
        invariant
            at <= ids@.len(),
            conflicts@.len() <= MAX_PLAN_CONFLICTS,
            rows_from(start, inputs, all, carrier_local as int, asset_path@, ids@) == rows_from(
                RowFindingsView { conflicts: views(conflicts@), drift },
                inputs,
                all,
                carrier_local as int,
                asset_path@,
                ids@.skip(at as int),
            ),
        decreases ids.len() - at,
    {
        proof {
            assert(ids@.skip(at as int)[0] == ids@[at as int]);
            assert(ids@.skip(at as int).skip(1) =~= ids@.skip(at as int + 1));
        }
        let found = match compare_row(opened, parsed, carrier_local, asset_path, ids[at], drift) {
            Ok(found) => found,
            Err(error) => {
                return Err(error);
            },
        };
        match join_conflicts(&mut conflicts, &found.conflicts) {
            Ok(_) => {},
            Err(error) => {
                return Err(error);
            },
        }
        drift = found.drift;
        at += 1;
    }
    Ok(RowFindings { conflicts, drift })
}

/// Where the base Pak stands among the providers; the first one where it does not
/// provide the database.
pub open spec fn carrier_from(parsed: Seq<ParsedDbProviderView>, carrier_index: usize, at: int) -> int
    decreases parsed.len() - at,
{
    if at >= parsed.len() {
        0
    } else if parsed[at].input_index == carrier_index {
        at
    } else {
        carrier_from(parsed, carrier_index, at + 1)
    }
}

pub fn carrier_position(parsed: &Vec<ParsedDbProvider>, carrier_index: usize) -> (result: usize)
    requires
        parsed@.len() > 0,
    ensures
        result < parsed@.len(),
        result == carrier_from(views(parsed@), carrier_index, 0),
{
    let ghost all = views(parsed@);
    let mut at: usize = 0;
    while at < parsed.len()
        invariant
            at <= parsed@.len(),
            parsed@.len() > 0,
            all == views(parsed@),
            carrier_from(all, carrier_index, 0) == carrier_from(all, carrier_index, at as int),
        decreases parsed.len() - at,
    {
        assert(all[at as int] == parsed@[at as int]@);
        if parsed[at].input_index == carrier_index {
            return at;
        }
        at += 1;
    }
    0
}

/// The warning of headers that differ.
pub open spec fn supporting_warning(asset_path: Seq<char>) -> Seq<char> {
    asset_path
        + ": the related .uasset file differs between Paks. The merge will keep the base Pak file and update only its structurally verified data-size field. Check this database in game after merging."@
}

/// The warning of values that are stored differently.
pub open spec fn drift_warning(drift: DriftCount, asset_path: Seq<char>) -> Seq<char> {
    "Encoding drift retained for "@ + dec(drift.count as nat) + " item(s) in "@ + asset_path + (
    "; the base Pak storage format will be kept. "@ + dec(drift.samples as nat)
        + " example(s) are available in the comparison details."@)
}

/// The warnings of a database, in order.
pub open spec fn group_warnings(
    differs: bool,
    placements: Seq<Seq<char>>,
    drift: DriftCount,
    asset_path: Seq<char>,
) -> Seq<Seq<char>> {
    let head = if differs {
        seq![supporting_warning(asset_path)]
    } else {
        Seq::empty()
    };
    let tail = if drift.count != 0 {
        seq![drift_warning(drift, asset_path)]
    } else {
        Seq::empty()
    };
    head + placements + tail
}

fn list_warnings(differs: bool, placements: Vec<String>, drift: DriftCount, asset_path: &str) -> (result:
    Vec<String>)
    ensures
        texts(result@) == group_warnings(differs, texts(placements@), drift, asset_path@),
{
    let ghost added = texts(placements@);
    let mut warnings: Vec<String> = Vec::new();
    let mut found = placements;
    if differs {
        let text = cat2(
            asset_path,
            ": the related .uasset file differs between Paks. The merge will keep the base Pak file and update only its structurally verified data-size field. Check this database in game after merging.",
        );
        warnings.push(text);
        assert(texts(warnings@) =~= seq![supporting_warning(asset_path@)]);
    } else {
        assert(texts(warnings@) =~= Seq::<Seq<char>>::empty());
    }
    let ghost head = texts(warnings@);
    warnings.append(&mut found);
    assert(texts(warnings@) =~= head + added);
    if drift.count != 0 {
        let rest = cat3(
            "; the base Pak storage format will be kept. ",
            decimal_usize(drift.samples).as_str(),
            " example(s) are available in the comparison details.",
        );
        let text = cat5(
            "Encoding drift retained for ",
            decimal(drift.count).as_str(),
            " item(s) in ",
            asset_path,
            rest.as_str(),
        );
        proof {
            texts_push(warnings@, text);
            assert(head + added + seq![text@] =~= (head + added).push(text@));
        }
        warnings.push(text);
    } else {
        assert(head + added + Seq::<Seq<char>>::empty() =~= head + added);
    }
    warnings
}

/// The ids of the conflicts that need a choice.
pub open spec fn blocking_ids(conflicts: Seq<ConflictView>) -> Seq<Seq<char>>
    decreases conflicts.len(),
{
    if conflicts.len() == 0 {
        Seq::empty()
    } else if conflicts.last().blocking {
        blocking_ids(conflicts.drop_last()).push(conflicts.last().id)
    } else {
        blocking_ids(conflicts.drop_last())
    }
}

pub fn list_blocking_ids(conflicts: &Vec<Conflict>) -> (result: Vec<String>)
    ensures
        texts(result@) == blocking_ids(views(conflicts@)),
{
    let ghost all = views(conflicts@);
    let mut ids: Vec<String> = Vec::new();
    let mut at: usize = 0;
    assert(texts(ids@) =~= Seq::<Seq<char>>::empty());
    while at < conflicts.len()
        invariant
            at <= conflicts@.len(),
            all == views(conflicts@),
            texts(ids@) == blocking_ids(all.take(at as int)),
        decreases conflicts.len() - at,
    {
        proof {
            assert(all.take(at as int + 1).drop_last() =~= all.take(at as int));
            assert(all.take(at as int + 1).last() == conflicts@[at as int]@);
        }
        if conflicts[at].blocking {
            let id = conflicts[at].id.clone();
            proof {
                texts_push(ids@, id);
            }
            ids.push(id);
        }
        at += 1;
    }
    assert(all.take(at as int) =~= all);
    ids
}

/// What the comparison of a database yields.
#[verifier::ext_equal]
pub struct DatabaseAnalysisView {
    pub asset: AssetPlanView,
    pub conflicts: Seq<ConflictView>,
    pub warnings: Seq<Seq<char>>,
    pub parsed: Seq<ParsedDbProviderView>,
    pub cached_bytes: u64,
}

/// What the comparison of a database yields.
#[derive(Debug)]
pub struct DatabaseAnalysis {
    pub asset: AssetPlan,
    pub conflicts: Vec<Conflict>,
    pub warnings: Vec<String>,
    pub parsed: Vec<ParsedDbProvider>,
    pub cached_bytes: u64,
}

impl View for DatabaseAnalysis {
    type V = DatabaseAnalysisView;

    open spec fn view(&self) -> DatabaseAnalysisView {
        DatabaseAnalysisView {
            asset: self.asset@,
            conflicts: views(self.conflicts@),
            warnings: texts(self.warnings@),
            parsed: views(self.parsed@),
            cached_bytes: self.cached_bytes,
        }
    }
}

/// The comparison of databases that were read and fit together.
pub open spec fn compared_group(
    opened: Seq<OpenedPakView>,
    providers: Seq<GroupProviderView>,
    carrier_index: usize,
    parsed: Seq<ParsedDbProviderView>,
    differs: bool,
) -> Outcome<DatabaseAnalysisView> {
    let carrier = carrier_from(parsed, carrier_index, 0);
    let asset_path = parsed[carrier].group.base_path;
    match rows_from(
        RowFindingsView { conflicts: Seq::empty(), drift: DriftCount { count: 0, samples: 0 } },
        opened,
        parsed,
        carrier,
        asset_path,
        all_ids_from(Seq::empty(), parsed),
    ) {
        Err(error) => Err(error),
        Ok(found) => {
            let placements = placement_collisions(opened, parsed, asset_path);
            let conflicts = found.conflicts + placements.0;
            let warnings = group_warnings(differs, placements.1, found.drift, asset_path);
            match count_allowed(conflicts.len() as int) {
                Err(error) => Err(error),
                Ok(_) => match provider_bytes_from(0, opened, providers, 0) {
                    Err(error) => Err(error),
                    Ok(bytes) => Ok(
                        DatabaseAnalysisView {
                            asset: AssetPlanView {
                                encoding_drift_count: found.drift.count,
                                ..package_plan(
                                    providers,
                                    opened,
                                    AssetActionKind::MergeDatabase,
                                    blocking_ids(conflicts),
                                    warnings,
                                )
                            },
                            conflicts,
                            warnings,
                            parsed,
                            cached_bytes: bytes as u64,
                        },
                    ),
                },
            }
        },
    }
}

/// The comparison of a database, from what the reader made of each provider's
/// file.
pub open spec fn database_group(
    opened: Seq<OpenedPakView>,
    providers: Seq<GroupProviderView>,
    carrier_index: usize,
    readings: Seq<Reading>,
) -> Outcome<DatabaseAnalysisView> {
    match loaded(opened, providers, readings) {
        Err(error) => Err(error),
        Ok(parsed) => match shells_compatible(parsed) {
            Err(error) => Err(error),
            Ok(differs) => compared_group(opened, providers, carrier_index, parsed, differs),
        },
    }
}

fn compare_group(
    opened: &Vec<OpenedPak>,
    providers: &Vec<GroupProvider>,
    carrier_index: usize,
    parsed: Vec<ParsedDbProvider>,
    differs: bool,
) -> (result: Result<DatabaseAnalysis>)
    requires
        all_well_formed(opened@),
        providers@.len() > 0,
        parsed@.len() > 0,
        parsed_well(parsed@, opened@.len()),
        forall|i: int|
            0 <= i < providers@.len() ==> (#[trigger] providers@[i]).input_index < opened@.len(),
    ensures
        seen(result) == compared_group(
            views(opened@),
            views(providers@),
            carrier_index,
            views(parsed@),
            differs,
        ),
        result matches Ok(found) ==> found.parsed == parsed,
{
    let carrier_local: usize = carrier_position(&parsed, carrier_index);
    assert(views(parsed@)[carrier_local as int] == parsed@[carrier_local as int]@);
    let asset_path = parsed[carrier_local].group.base_path.clone();
    let ids = collect_row_ids(&parsed);
    let found = match compare_rows(opened, &parsed, carrier_local, asset_path.as_str(), &ids) {
        Ok(found) => found,
        Err(error) => {
            return Err(error);
        },
    };
    let (mut placed, placement_warnings) = analyze_potential_npc_placement_collisions(
        opened,
        &parsed,
        asset_path.as_str(),
    );
    let drift: DriftCount = found.drift;
    let mut conflicts = found.conflicts;
    let ghost rows = views(conflicts@);
    let ghost places = views(placed@);
    conflicts.append(&mut placed);
    assert(views(conflicts@) =~= rows + places);
    let warnings = list_warnings(differs, placement_warnings, drift, asset_path.as_str());
    match ensure_conflict_count(&conflicts) {
        Ok(_) => {},
        Err(error) => {
            return Err(error);
        },
    }
    let ids = list_blocking_ids(&conflicts);
    let mut asset = package_asset_plan(
        providers,
        opened,
        AssetActionKind::MergeDatabase,
        ids,
        clone_texts(&warnings),
    );
    asset.encoding_drift_count = drift.count;
    let cached_bytes: u64 = match database_provider_bytes(opened, providers) {
        Ok(bytes) => bytes,
        Err(error) => {
            return Err(error);
        },
    };
    Ok(DatabaseAnalysis { asset, conflicts, warnings, parsed, cached_bytes })
}

/// Compares a database that several inputs provide. `readings` holds what the
/// reader made of the `.uexp` of each provider, in the order of the providers.
pub fn analyze_database_group(
    opened: &Vec<OpenedPak>,
    providers: &Vec<GroupProvider>,
    carrier_index: usize,
    readings: Vec<Reading>,
) -> (result: Result<DatabaseAnalysis>)
    requires
        all_well_formed(opened@),
        providers@.len() > 0,
        readings@.len() == providers@.len(),
        readings_well(readings@),
        forall|i: int|
            0 <= i < providers@.len() ==> (#[trigger] providers@[i]).input_index < opened@.len(),
    ensures
        seen(result) == database_group(
            views(opened@),
            views(providers@),
            carrier_index,
            readings@,
        ),
        result matches Ok(found) ==> parsed_well(found.parsed@, opened@.len())
            && found.parsed@.len() == providers@.len(),
{
    let parsed = match load_cached_database(opened, providers, readings) {
        Ok(parsed) => parsed,
        Err(error) => {
            return Err(error);
        },
    };
    let differs = match validate_database_shell_compatibility(&parsed) {
        Ok(differs) => differs,
        Err(error) => {
            return Err(error);
        },
    };
    compare_group(opened, providers, carrier_index, parsed, differs)
}

/// What is shown while a row of a database is compared.
pub open spec fn row_item(asset_path: Seq<char>, row_id: Option<i64>) -> Seq<char> {
    match row_id {
        Some(id) => asset_path + " · m_id "@ + signed_dec(id as int),
        None => asset_path,
    }
}

/// The report of a database whose rows are about to be compared.
pub fn database_rows_started(asset_path: &str, ids: &Vec<i64>, steps_per_unit: usize) -> (result:
    AnalysisUnitProgress)
    requires
        0 < steps_per_unit <= usize::MAX / 2,
    ensures
        result.completed_steps == phase_steps(1, 0, ids@.len() as int, steps_per_unit as int),
        text_view(result.current_item) == Some(
            row_item(
                asset_path@,
                if ids@.len() > 0 {
                    Some(ids@[0])
                } else {
                    None
                },
            ),
        ),
{
    let item = if ids.len() > 0 {
        cat3(asset_path, " · m_id ", signed_decimal(ids[0]).as_str())
    } else {
        asset_path.to_owned()
    };
    database_analysis_phase_progress(1, 0, ids.len() as u64, item, steps_per_unit)
}

/// The report after a row, where one is due.
pub fn database_row_compared(
    asset_path: &str,
    row_id: i64,
    completed_rows: usize,
    row_total: usize,
    steps_per_unit: usize,
) -> (result: Option<AnalysisUnitProgress>)
    requires
        0 < steps_per_unit <= usize::MAX / 2,
    ensures
        result is Some <==> reports_row(completed_rows as int, row_total as int),
        result matches Some(report) ==> report.completed_steps == phase_steps(
            1,
            completed_rows as int,
            row_total as int,
            steps_per_unit as int,
        ) && text_view(report.current_item) == Some(row_item(asset_path@, Some(row_id))),
{
    if should_report_database_progress(completed_rows, row_total) {
        let item = cat3(asset_path, " · m_id ", signed_decimal(row_id).as_str());
        Some(
            database_analysis_phase_progress(
                1,
                completed_rows as u64,
                row_total as u64,
                item,
                steps_per_unit,
            ),
        )
    } else {
        None
    }
}

} // verus!
