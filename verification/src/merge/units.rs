//! The units of an analysis, packages and loose files, and what each of them
//! yields.
use vstd::prelude::*;

use super::conflicts::{
    analyze_opaque_group, analyze_package_selection_group, group_variants_from, loose_conflict,
    loose_variants_from, make_loose_conflict, opaque_message, ordering_keeps_the_variants,
    package_selection, whole_variant,
};
use super::database::{parsed_well, readings_well, ParsedDbProvider, ParsedDbProviderView, Reading};
use super::error::{message_of, seen, MergeError, MergeErrorView, Outcome, Result};
use super::group::{
    analyze_database_group, database_group, DatabaseAnalysis, DatabaseAnalysisView,
};
use super::ids::{folded, sort_key};
use super::opened::{all_well_formed, OpenedPak, OpenedPakView};
use super::providers::{
    canonical_digest, collect_providers, database_candidate, entry_at, group_digest_of,
    groups_identical, is_database_candidate, joined_under, loose_asset_plan, loose_from,
    loose_identical, loose_in, loose_plan, loose_same, needs_database_parse, package_asset_plan,
    package_plan, packages_from, packages_in, providers_semantically_identical, usable_groups,
    usable_loose, AnalysisUnit, AnalysisUnitView, GroupProvider, GroupProviderView, LooseProvider,
    LooseProviderView,
};
use super::types::{
    AssetActionKind, AssetPlan, AssetPlanView, Conflict, ConflictKind, ConflictView, VariantView,
};
use crate::lists::{copy_list, views, views_push};
use crate::ordered::{get, slot, slot_parts, values};
use crate::pak::paths::PackageGroupView;
use crate::text::{cat3, dec, texts};

verus! {

/// A unit has a provider, and its providers name inputs that are there.
pub open spec fn usable_unit(unit: AnalysisUnitView, inputs: nat) -> bool {
    match unit {
        AnalysisUnitView::Package(list) => usable_groups(list, inputs),
        AnalysisUnitView::Loose(list) => usable_loose(list, inputs),
    }
}

pub open spec fn package_units(lists: Seq<Seq<GroupProviderView>>) -> Seq<AnalysisUnitView> {
    lists.map_values(|list: Seq<GroupProviderView>| AnalysisUnitView::Package(list))
}

pub open spec fn loose_units(lists: Seq<Seq<LooseProviderView>>) -> Seq<AnalysisUnitView> {
    lists.map_values(|list: Seq<LooseProviderView>| AnalysisUnitView::Loose(list))
}

/// The units of a job: its packages in the order of their keys, after them its
/// loose files.
pub open spec fn units_of(opened: Seq<OpenedPakView>) -> Seq<AnalysisUnitView> {
    package_units(values(packages_from(Seq::empty(), opened, 0))) + loose_units(
        values(loose_from(Seq::empty(), opened, 0)),
    )
}

/// Every package has a provider, and its providers name inputs that are there.
pub open spec fn groups_table_usable(table: Seq<(Seq<char>, Seq<GroupProviderView>)>, inputs: nat) -> bool {
    forall|i: int| 0 <= i < table.len() ==> usable_groups((#[trigger] table[i]).1, inputs)
}

/// Every loose file has a provider, and its providers name inputs that are there.
pub open spec fn loose_table_usable(table: Seq<(Seq<char>, Seq<LooseProviderView>)>, inputs: nat) -> bool {
    forall|i: int| 0 <= i < table.len() ==> usable_loose((#[trigger] table[i]).1, inputs)
}

proof fn joined_group_usable(
    table: Seq<(Seq<char>, Seq<GroupProviderView>)>,
    key: Seq<char>,
    item: GroupProviderView,
    inputs: nat,
)
    requires
        groups_table_usable(table, inputs),
        item.input_index < inputs,
    ensures
        groups_table_usable(joined_under(table, key, item), inputs),
{
    slot_parts(table, key);
    let at = slot(table, key);
    let after = joined_under(table, key, item);
    let list = match get(table, key) {
        Some(list) => list.push(item),
        None => seq![item],
    };
    if at < table.len() && table[at].0 == key {
        assert(usable_groups(table[at].1, inputs));
        assert forall|i: int| 0 <= i < list.len() implies (#[trigger] list[i]).input_index
            < inputs by {
            if i < list.len() - 1 {
                assert(list[i] == table[at].1[i]);
            }
        }
        assert(usable_groups(list, inputs));
        assert forall|i: int| 0 <= i < after.len() implies usable_groups(
            (#[trigger] after[i]).1,
            inputs,
        ) by {
            if i != at {
                assert(after[i] == table[i]);
            }
        }
    } else {
        assert(usable_groups(list, inputs));
        assert forall|i: int| 0 <= i < after.len() implies usable_groups(
            (#[trigger] after[i]).1,
            inputs,
        ) by {
            if i < at {
                assert(after[i] == table[i]);
            } else if i > at {
                assert(after[i] == table[i - 1]);
            }
        }
    }
}

proof fn joined_loose_usable(
    table: Seq<(Seq<char>, Seq<LooseProviderView>)>,
    key: Seq<char>,
    item: LooseProviderView,
    inputs: nat,
)
    requires
        loose_table_usable(table, inputs),
        item.input_index < inputs,
    ensures
        loose_table_usable(joined_under(table, key, item), inputs),
{
    slot_parts(table, key);
    let at = slot(table, key);
    let after = joined_under(table, key, item);
    let list = match get(table, key) {
        Some(list) => list.push(item),
        None => seq![item],
    };
    if at < table.len() && table[at].0 == key {
        assert(usable_loose(table[at].1, inputs));
        assert forall|i: int| 0 <= i < list.len() implies (#[trigger] list[i]).input_index
            < inputs by {
            if i < list.len() - 1 {
                assert(list[i] == table[at].1[i]);
            }
        }
        assert(usable_loose(list, inputs));
        assert forall|i: int| 0 <= i < after.len() implies usable_loose(
            (#[trigger] after[i]).1,
            inputs,
        ) by {
            if i != at {
                assert(after[i] == table[i]);
            }
        }
    } else {
        assert(usable_loose(list, inputs));
        assert forall|i: int| 0 <= i < after.len() implies usable_loose(
            (#[trigger] after[i]).1,
            inputs,
        ) by {
            if i < at {
                assert(after[i] == table[i]);
            } else if i > at {
                assert(after[i] == table[i - 1]);
            }
        }
    }
}

proof fn packages_in_usable(
    table: Seq<(Seq<char>, Seq<GroupProviderView>)>,
    input_index: usize,
    groups: Seq<PackageGroupView>,
    inputs: nat,
)
    requires
        groups_table_usable(table, inputs),
        input_index < inputs,
    ensures
        groups_table_usable(packages_in(table, input_index, groups), inputs),
    decreases groups.len(),
{
    if groups.len() > 0 {
        let key = folded(groups[0].base_path);
        let item = GroupProviderView { input_index, group: groups[0] };
        joined_group_usable(table, key, item, inputs);
        packages_in_usable(joined_under(table, key, item), input_index, groups.skip(1), inputs);
    }
}

proof fn loose_in_usable(
    table: Seq<(Seq<char>, Seq<LooseProviderView>)>,
    input_index: usize,
    paths: Seq<Seq<char>>,
    inputs: nat,
)
    requires
        loose_table_usable(table, inputs),
        input_index < inputs,
    ensures
        loose_table_usable(loose_in(table, input_index, paths), inputs),
    decreases paths.len(),
{
    if paths.len() > 0 {
        let key = folded(paths[0]);
        let item = LooseProviderView { input_index, path: paths[0] };
        joined_loose_usable(table, key, item, inputs);
        loose_in_usable(joined_under(table, key, item), input_index, paths.skip(1), inputs);
    }
}

/// Inputs that are gathered for packages stay inputs that are there.
pub proof fn packages_from_usable(
    table: Seq<(Seq<char>, Seq<GroupProviderView>)>,
    opened: Seq<OpenedPakView>,
    at: int,
)
    requires
        0 <= at,
        opened.len() <= usize::MAX,
        groups_table_usable(table, opened.len()),
    ensures
        groups_table_usable(packages_from(table, opened, at), opened.len()),
    decreases opened.len() - at,
{
    if at < opened.len() {
        let groups = opened[at].canonical_packages.packages;
        packages_in_usable(table, at as usize, groups, opened.len());
        packages_from_usable(packages_in(table, at as usize, groups), opened, at + 1);
    }
}

/// Inputs that are gathered for loose files stay inputs that are there.
pub proof fn loose_from_usable(
    table: Seq<(Seq<char>, Seq<LooseProviderView>)>,
    opened: Seq<OpenedPakView>,
    at: int,
)
    requires
        0 <= at,
        opened.len() <= usize::MAX,
        loose_table_usable(table, opened.len()),
    ensures
        loose_table_usable(loose_from(table, opened, at), opened.len()),
    decreases opened.len() - at,
{
    if at < opened.len() {
        let paths = opened[at].canonical_packages.loose_entries;
        loose_in_usable(table, at as usize, paths, opened.len());
        loose_from_usable(loose_in(table, at as usize, paths), opened, at + 1);
    }
}

/// Every unit of a job has a provider, and its providers name inputs of the job.
pub proof fn units_are_usable(opened: Seq<OpenedPakView>)
    requires
        opened.len() <= usize::MAX,
    ensures
        forall|i: int|
            0 <= i < units_of(opened).len() ==> usable_unit(
                #[trigger] units_of(opened)[i],
                opened.len(),
            ),
{
    packages_from_usable(Seq::empty(), opened, 0);
    loose_from_usable(Seq::empty(), opened, 0);
    let packages = packages_from(Seq::empty(), opened, 0);
    let loose = loose_from(Seq::empty(), opened, 0);
    assert forall|i: int| 0 <= i < units_of(opened).len() implies usable_unit(
        #[trigger] units_of(opened)[i],
        opened.len(),
    ) by {
        if i < packages.len() {
            assert(usable_groups(packages[i].1, opened.len()));
        } else {
            assert(usable_loose(loose[i - packages.len()].1, opened.len()));
        }
    }
}

/// Whether all units of a list are usable.
pub open spec fn all_usable(units: Seq<AnalysisUnit>, inputs: nat) -> bool {
    forall|i: int| 0 <= i < units.len() ==> usable_unit((#[trigger] units[i])@, inputs)
}

/// The units of a job.
pub fn collect_units(opened: &Vec<OpenedPak>) -> (result: Vec<AnalysisUnit>)
    ensures
        views(result@) == units_of(views(opened@)),
        all_usable(result@, opened@.len()),
{
    let count: usize = opened.len();
    let (packages, loose) = collect_providers(opened);
    let ghost first = package_units(values(packages@));
    let ghost second = loose_units(values(loose@));
    let mut units: Vec<AnalysisUnit> = Vec::new();
    let mut at: usize = 0;
    assert(views(units@) =~= first.take(0));
    while at < packages.items.len()
        invariant
            at <= packages.items@.len(),
            first == package_units(values(packages@)),
            views(units@) == first.take(at as int),
        decreases packages.items.len() - at,
    {
        let unit = AnalysisUnit::Package(copy_list(&packages.items[at].1.list));
        proof {
            views_push(units@, unit);
            assert(packages@[at as int].1 == packages.items@[at as int].1@);
            assert(first[at as int] == unit@);
            assert(first.take(at as int + 1) =~= first.take(at as int).push(unit@));
        }
        units.push(unit);
        at += 1;
    }
    assert(first.take(at as int) + second.take(0) =~= first);
    let mut at: usize = 0;
    while at < loose.items.len()
        invariant
            at <= loose.items@.len(),
            second == loose_units(values(loose@)),
            views(units@) == first + second.take(at as int),
        decreases loose.items.len() - at,
    {
        let unit = AnalysisUnit::Loose(copy_list(&loose.items[at].1.list));
        proof {
            views_push(units@, unit);
            assert(loose@[at as int].1 == loose.items@[at as int].1@);
            assert(second[at as int] == unit@);
            assert(first + second.take(at as int + 1) =~= (first + second.take(at as int)).push(
                unit@,
            ));
        }
        units.push(unit);
        at += 1;
    }
    proof {
        assert(second.take(at as int) =~= second);
        units_are_usable(views(opened@));
        assert(views(units@) =~= units_of(views(opened@)));
        assert(views(opened@).len() == opened@.len());
        assert forall|i: int| 0 <= i < units@.len() implies usable_unit(
            (#[trigger] units@[i])@,
            opened@.len(),
        ) by {
            assert(units_of(views(opened@))[i] == units@[i]@);
        }
    }
    units
}

/// A database that an analysis has read, under the key of its path.
#[derive(Debug)]
pub struct ParsedDatabase {
    pub key: String,
    pub providers: Vec<ParsedDbProvider>,
    pub cached_bytes: u64,
}

#[verifier::ext_equal]
pub struct ParsedDatabaseView {
    pub key: Seq<char>,
    pub providers: Seq<ParsedDbProviderView>,
    pub cached_bytes: u64,
}

impl View for ParsedDatabase {
    type V = ParsedDatabaseView;

    open spec fn view(&self) -> ParsedDatabaseView {
        ParsedDatabaseView {
            key: self.key@,
            providers: views(self.providers@),
            cached_bytes: self.cached_bytes,
        }
    }
}

/// What a unit yields.
#[derive(Debug)]
pub struct AnalysisUnitOutput {
    pub asset: AssetPlan,
    pub conflicts: Vec<Conflict>,
    pub warnings: Vec<String>,
    pub parsed_database: Option<ParsedDatabase>,
}

#[verifier::ext_equal]
pub struct AnalysisUnitOutputView {
    pub asset: AssetPlanView,
    pub conflicts: Seq<ConflictView>,
    pub warnings: Seq<Seq<char>>,
    pub parsed_database: Option<ParsedDatabaseView>,
}

impl View for AnalysisUnitOutput {
    type V = AnalysisUnitOutputView;

    open spec fn view(&self) -> AnalysisUnitOutputView {
        AnalysisUnitOutputView {
            asset: self.asset@,
            conflicts: views(self.conflicts@),
            warnings: texts(self.warnings@),
            parsed_database: match self.parsed_database {
                Some(database) => Some(database@),
                None => None,
            },
        }
    }
}

impl AnalysisUnitOutput {
    /// The databases that were read name inputs that are there.
    pub open spec fn well_formed(&self, inputs: nat) -> bool {
        self.parsed_database matches Some(database) ==> parsed_well(database.providers@, inputs)
            && database.providers@.len() > 0
    }
}

/// What a unit without conflicts yields.
pub open spec fn settled_output(asset: AssetPlanView) -> AnalysisUnitOutputView {
    AnalysisUnitOutputView {
        asset,
        conflicts: Seq::empty(),
        warnings: Seq::empty(),
        parsed_database: None,
    }
}

fn settle_output(asset: AssetPlan) -> (result: AnalysisUnitOutput)
    ensures
        result@ == settled_output(asset@),
        result.parsed_database is None,
{
    let conflicts: Vec<Conflict> = Vec::new();
    let warnings: Vec<String> = Vec::new();
    proof {
        assert(views(conflicts@) =~= Seq::<ConflictView>::empty());
        assert(texts(warnings@) =~= Seq::<Seq<char>>::empty());
    }
    AnalysisUnitOutput { asset, conflicts, warnings, parsed_database: None }
}

/// What a unit yields that is chosen as a whole.
pub open spec fn selection_output(
    selection: Outcome<(AssetPlanView, ConflictView)>,
    warnings: Seq<Seq<char>>,
) -> Outcome<AnalysisUnitOutputView> {
    match selection {
        Err(error) => Err(error),
        Ok(found) => Ok(
            AnalysisUnitOutputView {
                asset: found.0,
                conflicts: seq![found.1],
                warnings,
                parsed_database: None,
            },
        ),
    }
}

fn select_output(selection: Result<(AssetPlan, Conflict)>, warnings: Vec<String>) -> (result: Result<
    AnalysisUnitOutput,
>)
    ensures
        seen(result) == selection_output(
            (match selection {
                Ok(found) => Ok((found.0@, found.1@)),
                Err(error) => Err(error@),
            }),
            texts(warnings@),
        ),
        result matches Ok(output) ==> output.parsed_database is None,
{
    match selection {
        Err(error) => Err(error),
        Ok((asset, conflict)) => {
            let mut conflicts: Vec<Conflict> = Vec::new();
            conflicts.push(conflict);
            assert(views(conflicts@) =~= seq![conflict@]);
            Ok(AnalysisUnitOutput { asset, conflicts, warnings, parsed_database: None })
        },
    }
}

/// The warning of databases whose shells differ.
pub open spec fn shell_warning(base_path: Seq<char>, text: Seq<char>) -> Seq<char> {
    base_path
        + " cannot be compared row by row because the surrounding data differs. Choose one Pak for the whole file group. Details: "@
        + text
}

/// The warning of databases that could not be compared.
pub open spec fn failure_warning(base_path: Seq<char>, text: Seq<char>) -> Seq<char> {
    base_path
        + " could not be compared field by field, so its related files must be chosen from one Pak. Details: "@
        + text
}

pub open spec fn structure_message() -> Seq<char> {
    "The data outside the row list differs. Choose one Pak for the whole file group."@
}

/// What a package yields that its providers hold different versions of, once its
/// databases were compared.
pub open spec fn database_output(
    opened: Seq<OpenedPakView>,
    providers: Seq<GroupProviderView>,
    found: Outcome<DatabaseAnalysisView>,
) -> Outcome<AnalysisUnitOutputView> {
    let base_path = providers[0].group.base_path;
    match found {
        Ok(group) => Ok(
            AnalysisUnitOutputView {
                asset: group.asset,
                conflicts: group.conflicts,
                warnings: group.warnings,
                parsed_database: Some(
                    ParsedDatabaseView {
                        key: folded(group.asset.virtual_path),
                        providers: group.parsed,
                        cached_bytes: group.cached_bytes,
                    },
                ),
            },
        ),
        Err(MergeErrorView::DatabaseStructureMismatch(text)) => selection_output(
            package_selection(
                opened,
                providers,
                ConflictKind::StructureMismatch,
                structure_message(),
            ),
            seq![shell_warning(base_path, text)],
        ),
        Err(MergeErrorView::Cancelled) => Err(MergeErrorView::Cancelled),
        Err(MergeErrorView::Pak(error)) => Err(MergeErrorView::Pak(error)),
        Err(MergeErrorView::Io(text)) => Err(MergeErrorView::Io(text)),
        Err(error) => selection_output(
            package_selection(opened, providers, ConflictKind::OpaquePackage, opaque_message()),
            seq![failure_warning(base_path, message_of(error))],
        ),
    }
}

/// What a package yields.
pub open spec fn package_output(
    opened: Seq<OpenedPakView>,
    providers: Seq<GroupProviderView>,
    carrier_index: usize,
    readings: Seq<Reading>,
) -> Outcome<AnalysisUnitOutputView> {
    if providers.len() == 1 {
        Ok(
            settled_output(
                package_plan(
                    providers,
                    opened,
                    AssetActionKind::Copy,
                    Seq::empty(),
                    Seq::empty(),
                ),
            ),
        )
    } else {
        match groups_identical(opened, providers) {
            Err(error) => Err(error),
            Ok(true) => Ok(
                settled_output(
                    package_plan(
                        providers,
                        opened,
                        AssetActionKind::Deduplicate,
                        Seq::empty(),
                        Seq::empty(),
                    ),
                ),
            ),
            Ok(false) => if database_candidate(providers) {
                if readings.len() != providers.len() {
                    Err(MergeErrorView::Cancelled)
                } else {
                    database_output(
                        opened,
                        providers,
                        database_group(opened, providers, carrier_index, readings),
                    )
                }
            } else {
                selection_output(
                    package_selection(
                        opened,
                        providers,
                        ConflictKind::OpaquePackage,
                        opaque_message(),
                    ),
                    Seq::empty(),
                )
            },
        }
    }
}

/// What a loose file yields.
pub open spec fn loose_output(opened: Seq<OpenedPakView>, providers: Seq<LooseProviderView>) -> Outcome<
    AnalysisUnitOutputView,
> {
    if providers.len() == 1 {
        Ok(settled_output(loose_plan(providers, opened, AssetActionKind::Copy, Seq::empty())))
    } else {
        match loose_same(opened, providers) {
            Err(error) => Err(error),
            Ok(true) => Ok(
                settled_output(
                    loose_plan(providers, opened, AssetActionKind::Deduplicate, Seq::empty()),
                ),
            ),
            Ok(false) => match loose_conflict(opened, providers) {
                Err(error) => Err(error),
                Ok(conflict) => Ok(
                    AnalysisUnitOutputView {
                        asset: loose_plan(
                            providers,
                            opened,
                            AssetActionKind::SelectOpaque,
                            seq![conflict.id],
                        ),
                        conflicts: seq![conflict],
                        warnings: Seq::empty(),
                        parsed_database: None,
                    },
                ),
            },
        }
    }
}

/// What a unit yields. `readings` holds what the reader made of the databases of
/// a package that needs them; where one is missing, the reading was cancelled.
#[verifier::opaque]
pub open spec fn unit_output(
    opened: Seq<OpenedPakView>,
    unit: AnalysisUnitView,
    carrier_index: usize,
    readings: Seq<Reading>,
) -> Outcome<AnalysisUnitOutputView> {
    match unit {
        AnalysisUnitView::Package(providers) => package_output(
            opened,
            providers,
            carrier_index,
            readings,
        ),
        AnalysisUnitView::Loose(providers) => loose_output(opened, providers),
    }
}

fn output_of_databases(
    opened: &Vec<OpenedPak>,
    providers: &Vec<GroupProvider>,
    found: Result<DatabaseAnalysis>,
) -> (result: Result<AnalysisUnitOutput>)
    requires
        all_well_formed(opened@),
        providers@.len() > 0,
        forall|i: int|
            0 <= i < providers@.len() ==> (#[trigger] providers@[i]).input_index < opened@.len(),
    ensures
        seen(result) == database_output(views(opened@), views(providers@), seen(found)),
        (found matches Ok(group) ==> parsed_well(group.parsed@, opened@.len())
            && group.parsed@.len() > 0) ==> (result matches Ok(output) ==> output.well_formed(
            opened@.len(),
        )),
{
    assert(views(providers@)[0] == providers@[0]@);
    match found {
        Ok(group) => {
            let key = sort_key(group.asset.virtual_path.as_str());
            Ok(
                AnalysisUnitOutput {
                    asset: group.asset,
                    conflicts: group.conflicts,
                    warnings: group.warnings,
                    parsed_database: Some(
                        ParsedDatabase {
                            key,
                            providers: group.parsed,
                            cached_bytes: group.cached_bytes,
                        },
                    ),
                },
            )
        },
        Err(MergeError::DatabaseStructureMismatch(text)) => {
            let mut warnings: Vec<String> = Vec::new();
            warnings.push(
                cat3(
                    providers[0].group.base_path.as_str(),
                    " cannot be compared row by row because the surrounding data differs. Choose one Pak for the whole file group. Details: ",
                    text.as_str(),
                ),
            );
            assert(texts(warnings@) =~= seq![shell_warning(providers@[0]@.group.base_path, text@)]);
            select_output(
                analyze_package_selection_group(
                    opened,
                    providers,
                    ConflictKind::StructureMismatch,
                    "The data outside the row list differs. Choose one Pak for the whole file group.",
                ),
                warnings,
            )
        },
        Err(MergeError::Cancelled) => Err(MergeError::Cancelled),
        Err(MergeError::Pak(error)) => Err(MergeError::Pak(error)),
        Err(MergeError::Io(text)) => Err(MergeError::Io(text)),
        Err(error) => output_after_failure(opened, providers, error.message()),
    }
}

fn output_after_failure(opened: &Vec<OpenedPak>, providers: &Vec<GroupProvider>, text: String) -> (result:
    Result<AnalysisUnitOutput>)
    requires
        all_well_formed(opened@),
        providers@.len() > 0,
        forall|i: int|
            0 <= i < providers@.len() ==> (#[trigger] providers@[i]).input_index < opened@.len(),
    ensures
        seen(result) == selection_output(
            package_selection(
                views(opened@),
                views(providers@),
                ConflictKind::OpaquePackage,
                opaque_message(),
            ),
            seq![failure_warning(views(providers@)[0].group.base_path, text@)],
        ),
        result matches Ok(output) ==> output.parsed_database is None,
{
    assert(views(providers@)[0] == providers@[0]@);
    let mut warnings: Vec<String> = Vec::new();
    warnings.push(
        cat3(
            providers[0].group.base_path.as_str(),
            " could not be compared field by field, so its related files must be chosen from one Pak. Details: ",
            text.as_str(),
        ),
    );
    assert(texts(warnings@) =~= seq![
        failure_warning(views(providers@)[0].group.base_path, text@),
    ]);
    select_output(analyze_opaque_group(opened, providers), warnings)
}

fn analyze_package(
    opened: &Vec<OpenedPak>,
    providers: &Vec<GroupProvider>,
    carrier_index: usize,
    readings: Vec<Reading>,
) -> (result: Result<AnalysisUnitOutput>)
    requires
        all_well_formed(opened@),
        providers@.len() > 0,
        readings_well(readings@),
        forall|i: int|
            0 <= i < providers@.len() ==> (#[trigger] providers@[i]).input_index < opened@.len(),
    ensures
        seen(result) == package_output(
            views(opened@),
            views(providers@),
            carrier_index,
            readings@,
        ),
        result matches Ok(output) ==> output.well_formed(opened@.len()),
{
    let no_ids: Vec<String> = Vec::new();
    let no_warnings: Vec<String> = Vec::new();
    proof {
        assert(texts(no_ids@) =~= Seq::<Seq<char>>::empty());
        assert(texts(no_warnings@) =~= Seq::<Seq<char>>::empty());
    }
    if providers.len() == 1 {
        return Ok(
            settle_output(
                package_asset_plan(providers, opened, AssetActionKind::Copy, no_ids, no_warnings),
            ),
        );
    }
    let identical = match providers_semantically_identical(opened, providers) {
        Ok(identical) => identical,
        Err(error) => {
            return Err(error);
        },
    };
    if identical {
        return Ok(
            settle_output(
                package_asset_plan(
                    providers,
                    opened,
                    AssetActionKind::Deduplicate,
                    no_ids,
                    no_warnings,
                ),
            ),
        );
    }
    if is_database_candidate(providers) {
        if readings.len() != providers.len() {
            return Err(MergeError::Cancelled);
        }
        let found = analyze_database_group(opened, providers, carrier_index, readings);
        return output_of_databases(opened, providers, found);
    }
    select_output(analyze_opaque_group(opened, providers), no_warnings)
}

fn analyze_loose(opened: &Vec<OpenedPak>, providers: &Vec<LooseProvider>) -> (result: Result<
    AnalysisUnitOutput,
>)
    requires
        all_well_formed(opened@),
        providers@.len() > 0,
        forall|i: int|
            0 <= i < providers@.len() ==> (#[trigger] providers@[i]).input_index < opened@.len(),
    ensures
        seen(result) == loose_output(views(opened@), views(providers@)),
        result matches Ok(output) ==> output.parsed_database is None,
{
    let mut ids: Vec<String> = Vec::new();
    assert(texts(ids@) =~= Seq::<Seq<char>>::empty());
    if providers.len() == 1 {
        return Ok(
            settle_output(loose_asset_plan(providers, opened, AssetActionKind::Copy, ids)),
        );
    }
    let identical = match loose_identical(opened, providers) {
        Ok(identical) => identical,
        Err(error) => {
            return Err(error);
        },
    };
    if identical {
        return Ok(
            settle_output(loose_asset_plan(providers, opened, AssetActionKind::Deduplicate, ids)),
        );
    }
    let conflict = match make_loose_conflict(opened, providers) {
        Ok(conflict) => conflict,
        Err(error) => {
            return Err(error);
        },
    };
    ids.push(conflict.id.clone());
    assert(texts(ids@) =~= seq![conflict@.id]);
    let asset = loose_asset_plan(providers, opened, AssetActionKind::SelectOpaque, ids);
    let mut conflicts: Vec<Conflict> = Vec::new();
    conflicts.push(conflict);
    let warnings: Vec<String> = Vec::new();
    proof {
        assert(views(conflicts@) =~= seq![conflict@]);
        assert(texts(warnings@) =~= Seq::<Seq<char>>::empty());
    }
    Ok(AnalysisUnitOutput { asset, conflicts, warnings, parsed_database: None })
}

/// Compares what the providers of a unit hold. `readings` holds what the reader
/// made of the `.uexp` of each provider where the unit is a database; a list that
/// is cut short stands for a cancelled reading.
pub fn analyze_unit(
    unit: &AnalysisUnit,
    opened: &Vec<OpenedPak>,
    carrier_index: usize,
    readings: Vec<Reading>,
) -> (result: Result<AnalysisUnitOutput>)
    requires
        all_well_formed(opened@),
        usable_unit(unit@, opened@.len()),
        readings_well(readings@),
    ensures
        seen(result) == unit_output(views(opened@), unit@, carrier_index, readings@),
        result matches Ok(output) ==> output.well_formed(opened@.len()),
{
    proof {
        reveal(unit_output);
    }
    match unit {
        AnalysisUnit::Package(providers) => {
            proof {
                assert forall|i: int| 0 <= i < providers@.len() implies (
                #[trigger] providers@[i]).input_index < opened@.len() by {
                    assert(views(providers@)[i] == providers@[i]@);
                }
            }
            analyze_package(opened, providers, carrier_index, readings)
        },
        AnalysisUnit::Loose(providers) => {
            proof {
                assert forall|i: int| 0 <= i < providers@.len() implies (
                #[trigger] providers@[i]).input_index < opened@.len() by {
                    assert(views(providers@)[i] == providers@[i]@);
                }
            }
            analyze_loose(opened, providers)
        },
    }
}

/// The readings of one unit; none where there is no list for it.
pub open spec fn readings_of(readings: Seq<Vec<Reading>>, at: int) -> Seq<Reading> {
    if 0 <= at < readings.len() {
        readings[at]@
    } else {
        Seq::empty()
    }
}

/// What all units yield, or the failure of the first that fails.
pub open spec fn outputs_from(
    done: Seq<AnalysisUnitOutputView>,
    opened: Seq<OpenedPakView>,
    units: Seq<AnalysisUnitView>,
    carrier_index: usize,
    readings: Seq<Vec<Reading>>,
    at: int,
) -> Outcome<Seq<AnalysisUnitOutputView>>
    decreases units.len() - at,
{
    if at >= units.len() {
        Ok(done)
    } else {
        match unit_output(opened, units[at], carrier_index, readings_of(readings, at)) {
            Err(error) => Err(error),
            Ok(output) => outputs_from(
                done.push(output),
                opened,
                units,
                carrier_index,
                readings,
                at + 1,
            ),
        }
    }
}

/// Every reading is one of a well-formed database.
pub open spec fn all_readings_well(readings: Seq<Vec<Reading>>) -> bool {
    forall|i: int| 0 <= i < readings.len() ==> readings_well((#[trigger] readings[i])@)
}

pub open spec fn outputs_well(outputs: Seq<AnalysisUnitOutput>, inputs: nat) -> bool {
    forall|i: int| 0 <= i < outputs.len() ==> (#[trigger] outputs[i]).well_formed(inputs)
}

/// The outcome of a step that yields the outputs of units.
pub open spec fn same_outputs(
    result: Result<Vec<AnalysisUnitOutput>>,
    wanted: Outcome<Seq<AnalysisUnitOutputView>>,
) -> bool {
    match (result, wanted) {
        (Ok(list), Ok(expected)) => views(list@) == expected,
        (Err(error), Err(expected)) => error@ == expected,
        _ => false,
    }
}

/// Compares all units of a job, one after the other.
#[verifier::loop_isolation(false)]
pub fn analyze_units(
    units: &Vec<AnalysisUnit>,
    opened: &Vec<OpenedPak>,
    carrier_index: usize,
    readings: Vec<Vec<Reading>>,
) -> (result: Result<Vec<AnalysisUnitOutput>>)
    requires
        all_well_formed(opened@),
        all_usable(units@, opened@.len()),
        all_readings_well(readings@),
    ensures
        same_outputs(
            result,
            outputs_from(
                Seq::empty(),
                views(opened@),
                views(units@),
                carrier_index,
                readings@,
                0,
            ),
        ),
        result matches Ok(outputs) ==> outputs_well(outputs@, opened@.len()) && outputs@.len()
            == units@.len(),
{
    let ghost inputs = views(opened@);
    let ghost all = views(units@);
    let ghost lists = readings@;
    let mut rest = readings;
    let mut outputs: Vec<AnalysisUnitOutput> = Vec::new();
    let mut at: usize = 0;
    proof {
        assert(lists.skip(0) =~= lists);
        assert(views(outputs@) =~= Seq::<AnalysisUnitOutputView>::empty());
    }
    while at < units.len()
        invariant
            at <= units@.len(),
            outputs@.len() == at,
            outputs_well(outputs@, opened@.len()),
            rest@ == (if at <= lists.len() {
                lists.skip(at as int)
            } else {
                Seq::empty()
            }),
            outputs_from(Seq::empty(), inputs, all, carrier_index, lists, 0) == outputs_from(
                views(outputs@),
                inputs,
                all,
                carrier_index,
                lists,
                at as int,
            ),
        decreases units.len() - at,
    {
        let mut unit_readings: Vec<Reading> = Vec::new();
        if rest.len() > 0 {
            unit_readings = rest.remove(0);
            proof {
                assert(lists.skip(at as int)[0] == lists[at as int]);
                assert(rest@ =~= lists.skip(at as int + 1));
            }
        }
        proof {
            assert(unit_readings@ =~= readings_of(lists, at as int));
            assert(all[at as int] == units@[at as int]@);
        }
        let output = match analyze_unit(&units[at], opened, carrier_index, unit_readings) {
            Ok(output) => output,
            Err(error) => {
                return Err(error);
            },
        };
        proof {
            views_push(outputs@, output);
        }
        outputs.push(output);
        at += 1;
    }
    Ok(outputs)
}

/// How many inputs hold a unit.
pub open spec fn provider_count(unit: AnalysisUnitView) -> nat {
    match unit {
        AnalysisUnitView::Package(providers) => providers.len(),
        AnalysisUnitView::Loose(providers) => providers.len(),
    }
}

/// Whether all inputs that hold a unit hold the same files.
pub open spec fn held_alike(opened: Seq<OpenedPakView>, unit: AnalysisUnitView) -> Outcome<bool> {
    match unit {
        AnalysisUnitView::Package(providers) => groups_identical(opened, providers),
        AnalysisUnitView::Loose(providers) => loose_same(opened, providers),
    }
}

/// Files that only one input holds are taken from it without a choice.
pub proof fn single_holders_need_no_choice(
    opened: Seq<OpenedPakView>,
    unit: AnalysisUnitView,
    carrier_index: usize,
    readings: Seq<Reading>,
)
    requires
        provider_count(unit) == 1,
    ensures
        unit_output(opened, unit, carrier_index, readings) matches Ok(output)
            && output.asset.action == AssetActionKind::Copy && output.conflicts.len() == 0
            && output.asset.conflict_ids.len() == 0,
{
    reveal(unit_output);
}

/// Files that several inputs hold alike are taken once, without a choice.
pub proof fn equal_files_need_no_choice(
    opened: Seq<OpenedPakView>,
    unit: AnalysisUnitView,
    carrier_index: usize,
    readings: Seq<Reading>,
)
    requires
        provider_count(unit) > 1,
        held_alike(opened, unit) == Ok::<bool, MergeErrorView>(true),
    ensures
        unit_output(opened, unit, carrier_index, readings) matches Ok(output)
            && output.asset.action == AssetActionKind::Deduplicate && output.conflicts.len() == 0
            && output.asset.conflict_ids.len() == 0,
{
    reveal(unit_output);
}

proof fn group_variants_count(
    done: Seq<VariantView>,
    opened: Seq<OpenedPakView>,
    providers: Seq<GroupProviderView>,
    at: int,
)
    requires
        0 <= at <= providers.len(),
    ensures
        group_variants_from(done, opened, providers, at) matches Ok(variants) ==> variants.len()
            == done.len() + providers.len() - at,
    decreases providers.len() - at,
{
    if at < providers.len() {
        let input = opened[providers[at].input_index as int];
        match group_digest_of(input, providers[at].group) {
            Ok(digest) => {
                group_variants_count(
                    done.push(
                        whole_variant(
                            providers[0].group.base_path,
                            input.descriptor,
                            digest,
                            dec(providers[at].group.components.listed().len())
                                + " related files"@,
                            "whole-file-group"@,
                        ),
                    ),
                    opened,
                    providers,
                    at + 1,
                );
            },
            Err(_) => {},
        }
    }
}

proof fn loose_variants_count(
    done: Seq<VariantView>,
    opened: Seq<OpenedPakView>,
    providers: Seq<LooseProviderView>,
    at: int,
)
    requires
        0 <= at <= providers.len(),
    ensures
        loose_variants_from(done, opened, providers, at) matches Ok(variants) ==> variants.len()
            == done.len() + providers.len() - at,
    decreases providers.len() - at,
{
    if at < providers.len() {
        let input = opened[providers[at].input_index as int];
        match (entry_at(input, providers[at].path), canonical_digest(input, providers[at].path)) {
            (Ok(entry), Ok(digest)) => {
                loose_variants_count(
                    done.push(
                        whole_variant(
                            providers[0].path,
                            input.descriptor,
                            digest,
                            dec(entry.size as nat) + " bytes"@,
                            "whole-file"@,
                        ),
                    ),
                    opened,
                    providers,
                    at + 1,
                );
            },
            _ => {},
        }
    }
}

/// Files that inputs hold in different versions, and that are no databases, come
/// from one input as a whole: there is one conflict, it needs a choice, and each
/// input is one of its variants.
pub proof fn different_files_need_a_choice(
    opened: Seq<OpenedPakView>,
    unit: AnalysisUnitView,
    carrier_index: usize,
    readings: Seq<Reading>,
)
    requires
        provider_count(unit) > 1,
        held_alike(opened, unit) == Ok::<bool, MergeErrorView>(false),
        !needs_database_parse(unit),
    ensures
        unit_output(opened, unit, carrier_index, readings) matches Ok(output) ==> {
            &&& output.asset.action == AssetActionKind::SelectOpaque
            &&& output.conflicts.len() == 1
            &&& output.conflicts[0].blocking
            &&& output.conflicts[0].variants.len() == provider_count(unit)
            &&& output.asset.conflict_ids == seq![output.conflicts[0].id]
        },
{
    reveal(unit_output);
    match unit {
        AnalysisUnitView::Package(providers) => {
            group_variants_count(Seq::empty(), opened, providers, 0);
            match group_variants_from(Seq::empty(), opened, providers, 0) {
                Ok(variants) => {
                    ordering_keeps_the_variants(variants);
                },
                Err(_) => {},
            }
        },
        AnalysisUnitView::Loose(providers) => {
            loose_variants_count(Seq::empty(), opened, providers, 0);
            match loose_variants_from(Seq::empty(), opened, providers, 0) {
                Ok(variants) => {
                    ordering_keeps_the_variants(variants);
                },
                Err(_) => {},
            }
        },
    }
}

} // verus!
