//! From where the files of an output come: each file that is not merged has the bytes
//! of the file of the Pak that was chosen for it, and a merged database has the bytes
//! that were made for it.
use vstd::prelude::*;

use super::assembly::{merged_database, BuiltDatabaseView};
use super::compared::flattened_lists_hold_each;
use super::database::ParsedDbProviderView;
use super::error::Outcome;
use super::ids::folded;
use super::merged::{chose, selected_inputs_were_chosen};
use super::opened::OpenedPakView;
use super::output::{
    by_key, entry_paths, input_with_id, loose_donor, loose_with, nothing_staged, ordered_output,
    output_bytes, output_order, outputs_hold_each_path_once, package_donor, package_sources,
    placed_files_stand_in_a_row, placed_with_key, prepared_output, sources_from, with_asset,
    with_assets, with_built, DatabaseSupply, OutputContextView, OutputEntryView,
    OutputSourceView, PlacedEntryView, PreparedOutputView, StagedView,
};
use super::providers::{
    archive_path, loose_from, packages_from, GroupProviderView, LooseProviderView,
};
use super::resolve::{asset_conflict, first_conflict, preferred_from, provider_with, selected_input};
use super::types::{
    AssetActionKind, AssetPlanView, ConflictView, MergePlanView, ResolutionSetView,
};
use super::units::{loose_from_usable, packages_from_usable};
use super::verdicts::merges;
use crate::ordered::{get, put, slot, slot_parts, values};
use crate::pak::access::{mapped_bytes, MAX_IN_MEMORY_ENTRY_BYTES};
use crate::pak::error::PakErrorView;
use crate::pak::paths::{keyed, keyed_from, normal_path, sort_key_of};
use crate::pak::write::{OutputCompression, PakWriteEntryView};
use crate::sorting::{sorted, sorted_is_an_ordering};

verus! {

/// A file of an output is the file that an input has under a path: it bears that path,
/// and comes from where that file stands in the input's own archive.
pub open spec fn taken_from(
    entry: OutputEntryView,
    opened: Seq<OpenedPakView>,
    input: usize,
    path: Seq<char>,
) -> bool {
    &&& entry.path == path
    &&& archive_path(opened[input as int], path) matches Ok(inner) && entry.source
        == (OutputSourceView::Pak { input_index: input, path: inner })
}

/// An input is one of those that hold what an asset stands for, and holds it as the
/// files with these paths.
pub open spec fn provides(
    context: OutputContextView,
    asset: AssetPlanView,
    input: usize,
    paths: Seq<Seq<char>>,
) -> bool {
    let key = folded(asset.virtual_path);
    match get(context.packages, key) {
        Some(list) => exists|d: int|
            0 <= d < list.len() && (#[trigger] list[d]).input_index == input
                && list[d].group.components.paths() == paths,
        None => get(context.loose, key) matches Some(list) && exists|d: int|
            0 <= d < list.len() && (#[trigger] list[d]).input_index == input && paths.len()
                == 1 && paths[0] == list[d].path,
    }
}

/// None of the providers of a package is the input with an id.
pub open spec fn nobody_is(
    list: Seq<GroupProviderView>,
    opened: Seq<OpenedPakView>,
    id: Seq<char>,
) -> bool {
    forall|d: int|
        0 <= d < list.len() ==> opened[(#[trigger] list[d]).input_index as int].descriptor.id != id
}

/// The input comes first among the providers of a package in the order of the ids; where
/// no provider has one of them, it is the first of the providers.
pub open spec fn comes_first(
    ids: Seq<Seq<char>>,
    list: Seq<GroupProviderView>,
    opened: Seq<OpenedPakView>,
    input: usize,
) -> bool {
    ||| exists|k: int|
        0 <= k < ids.len() && opened[input as int].descriptor.id == #[trigger] ids[k] && forall|
            j: int,
        |
            0 <= j < k ==> nobody_is(list, opened, #[trigger] ids[j])
    ||| list.len() > 0 && list[0].input_index == input && forall|j: int|
        0 <= j < ids.len() ==> nobody_is(list, opened, #[trigger] ids[j])
}

/// The conflict is the first of a list with an id.
pub open spec fn is_first_with(conflicts: Seq<ConflictView>, at: int, id: Seq<char>) -> bool {
    &&& 0 <= at < conflicts.len()
    &&& conflicts[at].id == id
    &&& forall|j: int| 0 <= j < at ==> (#[trigger] conflicts[j]).id != id
}

/// The files of an asset are rightly taken from an input: where all hold the same, it is
/// the first of them; where they differ, it was chosen for the asset's conflict.
pub open spec fn is_the_right_one(
    context: OutputContextView,
    asset: AssetPlanView,
    input: usize,
) -> bool {
    let key = folded(asset.virtual_path);
    match asset.action {
        AssetActionKind::Copy | AssetActionKind::Deduplicate => match get(context.packages, key) {
            Some(list) => comes_first(asset.donor_input_ids, list, context.opened, input),
            None => get(context.loose, key) matches Some(list) && list[0].input_index == input,
        },
        AssetActionKind::MergeDatabase => false,
        _ => asset.conflict_ids.len() > 0 && exists|c: int| #[trigger]
            is_first_with(context.plan.conflicts, c, asset.conflict_ids[0]) && chose(
                context.resolutions.choices,
                context.plan.conflicts[c],
                context.opened[input as int].descriptor.id,
            ),
    }
}

/// These are the files of an asset as the right input has them.
pub open spec fn are_own_files(
    context: OutputContextView,
    asset: AssetPlanView,
    input: usize,
    paths: Seq<Seq<char>>,
    files: Seq<OutputEntryView>,
) -> bool {
    &&& provides(context, asset, input, paths)
    &&& is_the_right_one(context, asset, input)
    &&& files.len() == paths.len()
    &&& forall|i: int|
        0 <= i < paths.len() ==> taken_from(
            #[trigger] files[i],
            context.opened,
            input,
            paths[i],
        )
}

/// The merged database of an asset's providers, with what stands outside this library
/// in place `supply`.
#[verifier::opaque]
pub open spec fn made_database(
    context: OutputContextView,
    parsed: Seq<ParsedDbProviderView>,
    supply: int,
) -> Outcome<BuiltDatabaseView> {
    merged_database(
        context.plan,
        context.resolutions,
        context.opened,
        parsed,
        context.carrier_index,
        context.supplies[supply].header,
        context.supplies[supply].outputs@,
    )
}

/// These are the two files of a merged database.
pub open spec fn are_built_files(built: BuiltDatabaseView, files: Seq<OutputEntryView>) -> bool {
    &&& files.len() == 2
    &&& files[0].path == built.uasset_entry
    &&& files[0].source == OutputSourceView::Built(built.uasset)
    &&& files[1].path == built.uexp_entry
    &&& files[1].source == OutputSourceView::Built(built.uexp)
}

/// These are the two files of a database that is merged with what stands outside this
/// library in place `supply`.
pub open spec fn are_merged_files(
    context: OutputContextView,
    asset: AssetPlanView,
    supply: int,
    files: Seq<OutputEntryView>,
) -> bool {
    &&& 0 <= supply < context.supplies.len()
    &&& get(context.databases, folded(asset.virtual_path)) matches Some(parsed) && (made_database(
        context,
        parsed,
        supply,
    ) matches Ok(built) && are_built_files(built, files))
}

/// The database was staged.
spec fn is_with_built(next: StagedView, state: StagedView, built: BuiltDatabaseView) -> bool {
    next == with_built(state, built)
}

proof fn staged_databases_were_made(
    state: StagedView,
    context: OutputContextView,
    asset: AssetPlanView,
)
    requires
        asset.action == AssetActionKind::MergeDatabase,
    ensures
        with_asset(state, context, asset) matches Ok(next) ==> {
            &&& state.audits.len() < context.supplies.len()
            &&& get(context.databases, folded(asset.virtual_path)) matches Some(parsed) && (
            made_database(context, parsed, state.audits.len() as int) matches Ok(built)
                && is_with_built(next, state, built))
        },
{
    reveal(with_asset);
    reveal(made_database);
}

/// These are the files of an asset.
#[verifier::opaque]
pub open spec fn are_the_files(
    context: OutputContextView,
    asset: AssetPlanView,
    supply: int,
    files: Seq<OutputEntryView>,
) -> bool {
    if asset.action == AssetActionKind::MergeDatabase {
        are_merged_files(context, asset, supply, files)
    } else {
        exists|input: usize, paths: Seq<Seq<char>>| #[trigger]
            are_own_files(context, asset, input, paths, files)
    }
}

proof fn sources_are_those_of_the_input(
    done: Seq<OutputEntryView>,
    opened: Seq<OpenedPakView>,
    input: usize,
    paths: Seq<Seq<char>>,
)
    ensures
        package_sources(done, opened[input as int], input, paths) matches Ok(after) ==> {
            &&& after.len() == done.len() + paths.len()
            &&& after.take(done.len() as int) == done
            &&& forall|i: int|
                0 <= i < paths.len() ==> taken_from(
                    after[done.len() + i],
                    opened,
                    input,
                    #[trigger] paths[i],
                )
        },
    decreases paths.len(),
{
    if paths.len() == 0 {
        assert(done.take(done.len() as int) =~= done);
    } else if let Ok(inner) = archive_path(opened[input as int], paths[0]) {
        let entry = OutputEntryView {
            path: paths[0],
            source: OutputSourceView::Pak { input_index: input, path: inner },
        };
        let more = done.push(entry);
        let rest = paths.skip(1);
        sources_are_those_of_the_input(more, opened, input, rest);
        if let Ok(after) = package_sources(more, opened[input as int], input, rest) {
            assert(after.take(more.len() as int).take(done.len() as int) =~= after.take(
                done.len() as int,
            ));
            assert(more.take(done.len() as int) =~= done);
            assert forall|i: int| 0 <= i < paths.len() implies taken_from(
                after[done.len() + i],
                opened,
                input,
                #[trigger] paths[i],
            ) by {
                if i == 0 {
                    assert(after.take(more.len() as int)[done.len() as int] == entry);
                } else {
                    assert(rest[i - 1] == paths[i]);
                }
            }
        }
    }
}

proof fn found_package_is_first(
    list: Seq<GroupProviderView>,
    opened: Seq<OpenedPakView>,
    id: Seq<char>,
    at: int,
)
    requires
        0 <= at,
        forall|d: int|
            0 <= d < at && d < list.len() ==> opened[(#[trigger] list[d]).input_index as int].descriptor.id
                != id,
    ensures
        match provider_with(list, opened, id, at) {
            Some(found) => 0 <= found < list.len()
                && opened[list[found].input_index as int].descriptor.id == id,
            None => nobody_is(list, opened, id),
        },
    decreases list.len() - at,
{
    if at < list.len() && opened[list[at].input_index as int].descriptor.id != id {
        found_package_is_first(list, opened, id, at + 1);
    }
}

proof fn found_file_is_there(
    list: Seq<LooseProviderView>,
    opened: Seq<OpenedPakView>,
    id: Seq<char>,
    at: int,
)
    requires
        0 <= at,
    ensures
        loose_with(list, opened, id, at) matches Some(found) ==> 0 <= found < list.len()
            && opened[list[found].input_index as int].descriptor.id == id,
    decreases list.len() - at,
{
    if at < list.len() {
        found_file_is_there(list, opened, id, at + 1);
    }
}

proof fn preferred_package_comes_first(
    ids: Seq<Seq<char>>,
    list: Seq<GroupProviderView>,
    opened: Seq<OpenedPakView>,
)
    requires
        list.len() > 0,
    ensures
        match preferred_from(ids, list, opened) {
            Some(at) => 0 <= at < list.len() && comes_first(ids, list, opened, list[at].input_index),
            None => comes_first(ids, list, opened, list[0].input_index),
        },
    decreases ids.len(),
{
    if ids.len() > 0 {
        found_package_is_first(list, opened, ids[0], 0);
        match provider_with(list, opened, ids[0], 0) {
            Some(at) => {
                assert(opened[list[at].input_index as int].descriptor.id == ids[0]);
            },
            None => {
                let rest = ids.skip(1);
                preferred_package_comes_first(rest, list, opened);
                let input = match preferred_from(rest, list, opened) {
                    Some(at) => list[at].input_index,
                    None => list[0].input_index,
                };
                let id = opened[input as int].descriptor.id;
                if exists|k: int|
                    0 <= k < rest.len() && id == #[trigger] rest[k] && forall|j: int|
                        0 <= j < k ==> nobody_is(list, opened, #[trigger] rest[j]) {
                    let k = choose|k: int|
                        0 <= k < rest.len() && id == #[trigger] rest[k] && forall|j: int|
                            0 <= j < k ==> nobody_is(list, opened, #[trigger] rest[j]);
                    assert(ids[k + 1] == rest[k]);
                    assert forall|j: int| 0 <= j < k + 1 implies nobody_is(
                        list,
                        opened,
                        #[trigger] ids[j],
                    ) by {
                        if j > 0 {
                            assert(rest[j - 1] == ids[j]);
                        }
                    }
                } else {
                    assert forall|j: int| 0 <= j < ids.len() implies nobody_is(
                        list,
                        opened,
                        #[trigger] ids[j],
                    ) by {
                        if j > 0 {
                            assert(rest[j - 1] == ids[j]);
                        }
                    }
                }
            },
        }
    }
}

proof fn found_conflict_is_first(conflicts: Seq<ConflictView>, id: Seq<char>)
    ensures
        first_conflict(conflicts, id) matches Some(found) ==> exists|at: int| #[trigger]
            is_first_with(conflicts, at, id) && conflicts[at] == found,
    decreases conflicts.len(),
{
    if conflicts.len() > 0 {
        if conflicts[0].id == id {
            assert(is_first_with(conflicts, 0, id));
        } else {
            let rest = conflicts.skip(1);
            found_conflict_is_first(rest, id);
            if let Some(found) = first_conflict(rest, id) {
                let at = choose|at: int| #[trigger]
                    is_first_with(rest, at, id) && rest[at] == found;
                assert(conflicts[at + 1] == rest[at]);
                assert forall|j: int| 0 <= j < at + 1 implies (#[trigger] conflicts[j]).id != id by {
                    if j > 0 {
                        assert(rest[j - 1] == conflicts[j]);
                    }
                }
                assert(is_first_with(conflicts, at + 1, id));
            }
        }
    }
}

proof fn selected_inputs_are_right(
    context: OutputContextView,
    asset: AssetPlanView,
    conflict: ConflictView,
    input: usize,
)
    requires
        asset.action == AssetActionKind::SelectOpaque || asset.action
            == AssetActionKind::Unsupported,
        asset_conflict(context.plan, asset) == Outcome::<ConflictView>::Ok(conflict),
        selected_input(conflict, context.resolutions.choices) == Outcome::<Seq<char>>::Ok(
            context.opened[input as int].descriptor.id,
        ),
    ensures
        is_the_right_one(context, asset, input),
{
    found_conflict_is_first(context.plan.conflicts, asset.conflict_ids[0]);
    selected_inputs_were_chosen(conflict, context.resolutions.choices);
}

proof fn donated_packages_are_right(
    context: OutputContextView,
    asset: AssetPlanView,
    list: Seq<GroupProviderView>,
)
    requires
        list.len() > 0,
        get(context.packages, folded(asset.virtual_path)) == Some(list),
        asset.action != AssetActionKind::MergeDatabase,
    ensures
        package_donor(context, asset, list) matches Ok(donor) ==> {
            &&& is_the_right_one(context, asset, donor.input_index)
            &&& provides(context, asset, donor.input_index, donor.group.components.paths())
        },
{
    if let Ok(donor) = package_donor(context, asset, list) {
        match asset.action {
            AssetActionKind::Copy | AssetActionKind::Deduplicate => {
                preferred_package_comes_first(asset.donor_input_ids, list, context.opened);
                let d = match preferred_from(asset.donor_input_ids, list, context.opened) {
                    Some(at) => at,
                    None => 0,
                };
                assert(list[d] == donor);
            },
            _ => {
                let conflict = asset_conflict(context.plan, asset)->Ok_0;
                let id = selected_input(conflict, context.resolutions.choices)->Ok_0;
                found_package_is_first(list, context.opened, id, 0);
                let d = provider_with(list, context.opened, id, 0)->0;
                assert(list[d] == donor);
                selected_inputs_are_right(context, asset, conflict, donor.input_index);
            },
        }
    }
}

proof fn listed_file_is_provided(
    context: OutputContextView,
    asset: AssetPlanView,
    list: Seq<LooseProviderView>,
    d: int,
)
    requires
        0 <= d < list.len(),
        get(context.packages, folded(asset.virtual_path)) is None,
        get(context.loose, folded(asset.virtual_path)) == Some(list),
    ensures
        provides(context, asset, list[d].input_index, seq![list[d].path]),
{
    let paths = seq![list[d].path];
    let found = get(context.loose, folded(asset.virtual_path))->0;
    assert(found[d].input_index == list[d].input_index && paths[0] == found[d].path);
    assert(paths.len() == 1);
}

proof fn donated_files_are_right(
    context: OutputContextView,
    asset: AssetPlanView,
    list: Seq<LooseProviderView>,
)
    requires
        list.len() > 0,
        get(context.packages, folded(asset.virtual_path)) is None,
        get(context.loose, folded(asset.virtual_path)) == Some(list),
    ensures
        loose_donor(context, asset, list) matches Ok(donor) ==> {
            &&& is_the_right_one(context, asset, donor.input_index)
            &&& provides(context, asset, donor.input_index, seq![donor.path])
        },
{
    if let Ok(donor) = loose_donor(context, asset, list) {
        match asset.action {
            AssetActionKind::Copy | AssetActionKind::Deduplicate => {
                assert(list[0] == donor);
                listed_file_is_provided(context, asset, list, 0);
            },
            _ => {
                let conflict = asset_conflict(context.plan, asset)->Ok_0;
                let id = selected_input(conflict, context.resolutions.choices)->Ok_0;
                found_file_is_there(list, context.opened, id, 0);
                let d = loose_with(list, context.opened, id, 0)->0;
                assert(list[d] == donor);
                selected_inputs_are_right(context, asset, conflict, donor.input_index);
                listed_file_is_provided(context, asset, list, d);
            },
        }
    }
}

/// Every package and every loose file has a provider.
pub open spec fn all_provided(context: OutputContextView) -> bool {
    &&& forall|key: Seq<char>|
        (#[trigger] get(context.packages, key)) matches Some(list) ==> list.len() > 0
    &&& forall|key: Seq<char>|
        (#[trigger] get(context.loose, key)) matches Some(list) ==> list.len() > 0
}

/// An asset adds its files to an output and nothing else: those of the right Pak, or
/// the two of a merged database.
pub proof fn assets_add_their_files(
    state: StagedView,
    context: OutputContextView,
    asset: AssetPlanView,
)
    requires
        all_provided(context),
    ensures
        with_asset(state, context, asset) matches Ok(next) ==> {
            let files = next.entries.skip(state.entries.len() as int);
            &&& next.entries == state.entries + files
            &&& are_the_files(context, asset, state.audits.len() as int, files)
            &&& next.audits.len() == state.audits.len() + merges(seq![asset])
        },
{
    reveal(are_the_files);
    merging_is_counted(asset);
    if asset.action == AssetActionKind::MergeDatabase {
        merged_assets_add_their_files(state, context, asset);
    } else {
        taken_assets_add_their_files(state, context, asset);
    }
}

proof fn merging_is_counted(asset: AssetPlanView)
    ensures
        merges(Seq::<AssetPlanView>::empty()) == 0,
        merges(seq![asset]) == if asset.action == AssetActionKind::MergeDatabase {
            1nat
        } else {
            0nat
        },
{
    reveal(Seq::filter);
    let none = Seq::<AssetPlanView>::empty();
    let pred = |asset: AssetPlanView| asset.action == AssetActionKind::MergeDatabase;
    assert(none.filter(pred).len() == 0);
    none.lemma_filter_push(asset, pred);
    assert(seq![asset] =~= none.push(asset));
    assert(merges(seq![asset]) == none.push(asset).filter(pred).len());
}

proof fn merged_assets_add_their_files(
    state: StagedView,
    context: OutputContextView,
    asset: AssetPlanView,
)
    requires
        asset.action == AssetActionKind::MergeDatabase,
    ensures
        with_asset(state, context, asset) matches Ok(next) ==> {
            let files = next.entries.skip(state.entries.len() as int);
            &&& next.entries == state.entries + files
            &&& are_merged_files(context, asset, state.audits.len() as int, files)
            &&& next.audits.len() == state.audits.len() + 1
        },
{
    staged_databases_were_made(state, context, asset);
    if let Ok(next) = with_asset(state, context, asset) {
        let parsed = get(context.databases, folded(asset.virtual_path))->0;
        let built = made_database(context, parsed, state.audits.len() as int)->Ok_0;
        built_files_are_added(state, built);
    }
}

proof fn built_files_are_added(state: StagedView, built: BuiltDatabaseView)
    ensures
        ({
            let next = with_built(state, built);
            let files = next.entries.skip(state.entries.len() as int);
            &&& next.entries == state.entries + files
            &&& are_built_files(built, files)
            &&& next.audits.len() == state.audits.len() + 1
        }),
{
    let next = with_built(state, built);
    let files = next.entries.skip(state.entries.len() as int);
    assert(next.entries =~= state.entries + files);
}

proof fn taken_assets_add_their_files(
    state: StagedView,
    context: OutputContextView,
    asset: AssetPlanView,
)
    requires
        all_provided(context),
        asset.action != AssetActionKind::MergeDatabase,
    ensures
        with_asset(state, context, asset) matches Ok(next) ==> {
            let files = next.entries.skip(state.entries.len() as int);
            &&& next.entries == state.entries + files
            &&& exists|input: usize, paths: Seq<Seq<char>>| #[trigger]
                are_own_files(context, asset, input, paths, files)
            &&& next.audits.len() == state.audits.len()
        },
{
    match get(context.packages, folded(asset.virtual_path)) {
        Some(list) => {
            taken_packages_add_their_files(state, context, asset, list);
        },
        None => {
            if let Some(list) = get(context.loose, folded(asset.virtual_path)) {
                taken_files_are_added(state, context, asset, list);
            } else {
                reveal(with_asset);
            }
        },
    }
}

proof fn taken_packages_add_their_files(
    state: StagedView,
    context: OutputContextView,
    asset: AssetPlanView,
    list: Seq<GroupProviderView>,
)
    requires
        list.len() > 0,
        get(context.packages, folded(asset.virtual_path)) == Some(list),
        asset.action != AssetActionKind::MergeDatabase,
    ensures
        with_asset(state, context, asset) matches Ok(next) ==> {
            let files = next.entries.skip(state.entries.len() as int);
            &&& next.entries == state.entries + files
            &&& exists|input: usize, paths: Seq<Seq<char>>| #[trigger]
                are_own_files(context, asset, input, paths, files)
            &&& next.audits.len() == state.audits.len()
        },
{
    let before = state.entries.len() as int;
    if let Ok(next) = with_asset(state, context, asset) {
        let files = next.entries.skip(before);
        let donor = package_donor(context, asset, list)->Ok_0;
        let paths = donor.group.components.paths();
        assert(package_donor(context, asset, list) is Ok && package_sources(
            state.entries,
            context.opened[donor.input_index as int],
            donor.input_index,
            paths,
        ) == Outcome::<Seq<OutputEntryView>>::Ok(next.entries) && next.audits == state.audits) by {
            reveal(with_asset);
        }
        donated_packages_are_right(context, asset, list);
        sources_are_those_of_the_input(state.entries, context.opened, donor.input_index, paths);
        assert(next.entries =~= next.entries.take(before) + files);
        assert forall|i: int| 0 <= i < paths.len() implies taken_from(
            #[trigger] files[i],
            context.opened,
            donor.input_index,
            paths[i],
        ) by {
            assert(files[i] == next.entries[before + i]);
        }
        assert(are_own_files(context, asset, donor.input_index, paths, files));
    }
}

proof fn taken_files_are_added(
    state: StagedView,
    context: OutputContextView,
    asset: AssetPlanView,
    list: Seq<LooseProviderView>,
)
    requires
        list.len() > 0,
        get(context.packages, folded(asset.virtual_path)) is None,
        get(context.loose, folded(asset.virtual_path)) == Some(list),
    ensures
        with_asset(state, context, asset) matches Ok(next) ==> {
            let files = next.entries.skip(state.entries.len() as int);
            &&& next.entries == state.entries + files
            &&& exists|input: usize, paths: Seq<Seq<char>>| #[trigger]
                are_own_files(context, asset, input, paths, files)
            &&& next.audits.len() == state.audits.len()
        },
{
    let before = state.entries.len() as int;
    if let Ok(next) = with_asset(state, context, asset) {
        let files = next.entries.skip(before);
        let donor = loose_donor(context, asset, list)->Ok_0;
        let inner = archive_path(context.opened[donor.input_index as int], donor.path);
        let entry = OutputEntryView {
            path: donor.path,
            source: OutputSourceView::Pak { input_index: donor.input_index, path: inner->Ok_0 },
        };
        assert(loose_donor(context, asset, list) is Ok && inner is Ok && next.entries
            == state.entries.push(entry) && next.audits == state.audits) by {
            reveal(with_asset);
        }
        donated_files_are_right(context, asset, list);
        assert(next.entries =~= state.entries + files);
        assert(files =~= seq![entry]);
        assert(are_own_files(context, asset, donor.input_index, seq![donor.path], files));
    }
}

proof fn merges_add_up(first: AssetPlanView, rest: Seq<AssetPlanView>, a: int)
    requires
        0 <= a <= rest.len(),
    ensures
        merges((seq![first] + rest).take(a + 1)) == merges(seq![first]) + merges(rest.take(a)),
{
    let pred = |asset: AssetPlanView| asset.action == AssetActionKind::MergeDatabase;
    Seq::filter_distributes_over_add(seq![first], rest.take(a), pred);
    assert((seq![first] + rest).take(a + 1) =~= seq![first] + rest.take(a));
}

/// The files of an output are those of all assets, one asset after the other: the
/// merged databases take what stands outside this library in their order.
pub proof fn all_assets_add_their_files(
    state: StagedView,
    context: OutputContextView,
    assets: Seq<AssetPlanView>,
) -> (parts: Seq<Seq<OutputEntryView>>)
    requires
        all_provided(context),
    ensures
        with_assets(state, context, assets) matches Ok(staged) ==> {
            &&& parts.len() == assets.len()
            &&& staged.entries == state.entries + parts.flatten()
            &&& forall|a: int|
                0 <= a < assets.len() ==> are_the_files(
                    context,
                    #[trigger] assets[a],
                    (state.audits.len() + merges(assets.take(a))) as int,
                    parts[a],
                )
        },
    decreases assets.len(),
{
    if assets.len() == 0 {
        let parts = Seq::<Seq<OutputEntryView>>::empty();
        assert(state.entries + parts.flatten() =~= state.entries);
        parts
    } else {
        assets_add_their_files(state, context, assets[0]);
        match with_asset(state, context, assets[0]) {
            Err(_) => Seq::empty(),
            Ok(next) => {
                let tail = assets.skip(1);
                let files = next.entries.skip(state.entries.len() as int);
                let rest = all_assets_add_their_files(next, context, tail);
                let parts = seq![files] + rest;
                if let Ok(staged) = with_assets(next, context, tail) {
                    assert(parts.drop_first() =~= rest);
                    assert(parts.first() == files);
                    assert(state.entries + parts.flatten() =~= next.entries + rest.flatten());
                    assert(assets =~= seq![assets[0]] + tail);
                    assert forall|a: int| 0 <= a < assets.len() implies are_the_files(
                        context,
                        #[trigger] assets[a],
                        (state.audits.len() + merges(assets.take(a))) as int,
                        parts[a],
                    ) by {
                        if a == 0 {
                            merging_is_counted(assets[0]);
                            assert(assets.take(0) =~= Seq::<AssetPlanView>::empty());
                        } else {
                            merges_add_up(assets[0], tail, a - 1);
                            assert(tail[a - 1] == assets[a]);
                            assert(parts[a] == rest[a - 1]);
                        }
                    }
                }
                parts
            },
        }
    }
}

proof fn placed_file_is_found(entries: Seq<PlacedEntryView>, key: Seq<char>, from: int, at: int)
    requires
        0 <= from <= at < entries.len(),
        folded(entries[at].entry.path) == key,
        forall|i: int|
            from <= i < at ==> folded((#[trigger] entries[i]).entry.path) != key,
    ensures
        placed_with_key(entries, key, from) == Some(at),
    decreases at - from,
{
    if from < at {
        assert(folded(entries[from].entry.path) != key);
        placed_file_is_found(entries, key, from + 1, at);
    }
}

/// The bytes that a file of an output has by its source.
pub open spec fn has_bytes(
    entry: OutputEntryView,
    opened: Seq<OpenedPakView>,
    bytes: std::result::Result<Seq<u8>, PakErrorView>,
) -> bool {
    bytes == match entry.source {
        OutputSourceView::Built(made) => Ok::<Seq<u8>, PakErrorView>(made),
        OutputSourceView::Pak { input_index, path } => mapped_bytes(
            opened[input_index as int].archive,
            path,
            MAX_IN_MEMORY_ENTRY_BYTES,
        ),
    }
}

/// The bytes under a path of an output are those of the file with that path.
proof fn written_bytes_are_those_of_the_source(
    prepared: PreparedOutputView,
    opened: Seq<OpenedPakView>,
    at: int,
)
    requires
        0 <= at < prepared.entries.len(),
        forall|i: int, j: int|
            0 <= i < j < prepared.entries.len() ==> folded(
                (#[trigger] prepared.entries[i]).entry.path,
            ) != folded((#[trigger] prepared.entries[j]).entry.path),
    ensures
        has_bytes(
            prepared.entries[at].entry,
            opened,
            output_bytes(prepared.entries, opened, prepared.entries[at].entry.path),
        ),
{
    placed_file_is_found(
        prepared.entries,
        folded(prepared.entries[at].entry.path),
        0,
        at,
    );
}

/// A file stands in an output.
pub open spec fn stands_in(prepared: PreparedOutputView, file: OutputEntryView) -> bool {
    exists|i: int| 0 <= i < prepared.entries.len() && (#[trigger] prepared.entries[i]).entry == file
}

proof fn ordering_keeps_the_files(staged: StagedView, opened: Seq<OpenedPakView>, mount: Seq<char>)
    ensures
        ordered_output(staged, opened, mount) matches Ok(prepared) ==> {
            &&& prepared.entries.len() == staged.entries.len()
            &&& forall|file: OutputEntryView| #[trigger]
                stands_in(prepared, file) <==> staged.entries.contains(file)
        },
{
    broadcast use vstd::seq_lib::group_to_multiset_ensures;

    if let Ok(prepared) = ordered_output(staged, opened, mount) {
        let items = by_key(staged.entries);
        let order = sorted(items);
        let entries = values(order);
        sorted_is_an_ordering(items);
        placed_files_stand_in_a_row(Seq::empty(), 0, opened, entries);
        assert forall|file: OutputEntryView| #[trigger] stands_in(
            prepared,
            file,
        ) <==> staged.entries.contains(file) by {
            if staged.entries.contains(file) {
                let i = choose|i: int| 0 <= i < staged.entries.len() && staged.entries[i] == file;
                assert(items.contains(items[i]));
                assert(order.to_multiset().count(items[i]) > 0);
                assert(order.contains(items[i]));
                let j = choose|j: int| 0 <= j < order.len() && order[j] == items[i];
                assert(entries[j] == file);
                assert(prepared.entries[j].entry == file);
            }
            if stands_in(prepared, file) {
                let j = choose|j: int|
                    0 <= j < prepared.entries.len() && (#[trigger] prepared.entries[j]).entry
                        == file;
                assert(prepared.entries[j].entry == entries[j]);
                assert(order.contains(order[j]));
                assert(items.to_multiset().count(order[j]) > 0);
                assert(items.contains(order[j]));
                let i = choose|i: int| 0 <= i < items.len() && items[i] == order[j];
                assert(staged.entries[i] == file);
            }
        }
    }
}

/// What the files of a job's output are taken from.
pub open spec fn job_context(
    plan: MergePlanView,
    resolutions: ResolutionSetView,
    opened: Seq<OpenedPakView>,
    databases: Seq<(Seq<char>, Seq<ParsedDbProviderView>)>,
    supplies: Seq<DatabaseSupply>,
    carrier: int,
) -> OutputContextView {
    OutputContextView {
        plan,
        resolutions,
        opened,
        packages: packages_from(Seq::empty(), opened, 0),
        loose: loose_from(Seq::empty(), opened, 0),
        databases,
        carrier_index: carrier as usize,
        supplies,
    }
}

proof fn jobs_are_provided(
    plan: MergePlanView,
    resolutions: ResolutionSetView,
    opened: Seq<OpenedPakView>,
    databases: Seq<(Seq<char>, Seq<ParsedDbProviderView>)>,
    supplies: Seq<DatabaseSupply>,
    carrier: int,
)
    requires
        opened.len() <= usize::MAX,
    ensures
        all_provided(job_context(plan, resolutions, opened, databases, supplies, carrier)),
{
    packages_from_usable(Seq::empty(), opened, 0);
    loose_from_usable(Seq::empty(), opened, 0);
    let packages = packages_from(Seq::empty(), opened, 0);
    let loose = loose_from(Seq::empty(), opened, 0);
    assert forall|key: Seq<char>| (#[trigger] get(packages, key)) matches Some(list) implies get(
        packages,
        key,
    )->0.len() > 0 by {
        slot_parts(packages, key);
        let at = slot(packages, key);
        assert(packages[at].1.len() > 0);
    }
    assert forall|key: Seq<char>| (#[trigger] get(loose, key)) matches Some(list) implies get(
        loose,
        key,
    )->0.len() > 0 by {
        slot_parts(loose, key);
        let at = slot(loose, key);
        assert(loose[at].1.len() > 0);
    }
}

/// A file is written: it stands in the output, and its bytes are read under its path.
pub open spec fn is_written_whole(
    prepared: PreparedOutputView,
    opened: Seq<OpenedPakView>,
    file: OutputEntryView,
) -> bool {
    &&& stands_in(prepared, file)
    &&& has_bytes(file, opened, output_bytes(prepared.entries, opened, file.path))
}

/// The files of all assets are written.
pub open spec fn writes_all(
    prepared: PreparedOutputView,
    opened: Seq<OpenedPakView>,
    parts: Seq<Seq<OutputEntryView>>,
) -> bool {
    &&& prepared.entries.len() == parts.flatten().len()
    &&& forall|a: int, i: int|
        0 <= a < parts.len() && 0 <= i < parts[a].len() ==> is_written_whole(
            prepared,
            opened,
            #[trigger] parts[a][i],
        )
    &&& forall|k: int|
        0 <= k < prepared.entries.len() ==> exists|a: int|
            0 <= a < parts.len() && (#[trigger] parts[a]).contains(
                (#[trigger] prepared.entries[k]).entry,
            )
}

/// The output of a job holds the files of all assets, each with the bytes of its
/// source, and no others.
pub proof fn outputs_hold_the_files_of_all_assets(
    plan: MergePlanView,
    resolutions: ResolutionSetView,
    opened: Seq<OpenedPakView>,
    databases: Seq<(Seq<char>, Seq<ParsedDbProviderView>)>,
    supplies: Seq<DatabaseSupply>,
) -> (parts: Seq<Seq<OutputEntryView>>)
    requires
        opened.len() <= usize::MAX,
    ensures
        prepared_output(plan, resolutions, opened, databases, supplies) matches Ok(prepared) ==> {
            let carrier = input_with_id(opened, plan.carrier_input_id, 0)->0;
            let context = job_context(plan, resolutions, opened, databases, supplies, carrier);
            &&& parts.len() == plan.assets.len()
            &&& forall|a: int|
                0 <= a < plan.assets.len() ==> are_the_files(
                    context,
                    #[trigger] plan.assets[a],
                    merges(plan.assets.take(a)) as int,
                    parts[a],
                )
            &&& writes_all(prepared, opened, parts)
        },
{
    match prepared_output(plan, resolutions, opened, databases, supplies) {
        Err(_) => Seq::empty(),
        Ok(prepared) => {
            let carrier = input_with_id(opened, plan.carrier_input_id, 0)->0;
            let context = job_context(plan, resolutions, opened, databases, supplies, carrier);
            jobs_are_provided(plan, resolutions, opened, databases, supplies, carrier);
            let parts = all_assets_add_their_files(nothing_staged(), context, plan.assets);
            let staged = with_assets(nothing_staged(), context, plan.assets)->Ok_0;
            let mount = opened[carrier].canonical_mount_point;
            assert(staged.entries =~= parts.flatten());
            ordering_keeps_the_files(staged, opened, mount);
            outputs_hold_each_path_once(plan, resolutions, opened, databases, supplies);
            assert forall|a: int, i: int|
                0 <= a < parts.len() && 0 <= i < parts[a].len() implies is_written_whole(
                prepared,
                opened,
                #[trigger] parts[a][i],
            ) by {
                let file = parts[a][i];
                flattened_lists_hold_each(parts, file);
                assert(parts[a].contains(file));
                assert(stands_in(prepared, file));
                let k = choose|k: int|
                    0 <= k < prepared.entries.len() && (#[trigger] prepared.entries[k]).entry
                        == file;
                written_bytes_are_those_of_the_source(prepared, opened, k);
            }
            assert forall|k: int| 0 <= k < prepared.entries.len() implies exists|a: int|
                0 <= a < parts.len() && (#[trigger] parts[a]).contains(
                    (#[trigger] prepared.entries[k]).entry,
                ) by {
                let file = prepared.entries[k].entry;
                assert(stands_in(prepared, file));
                flattened_lists_hold_each(parts, file);
            }
            parts
        },
    }
}

/// The output has, under each of these paths, the bytes that an input has under it.
pub open spec fn holds_bytes_of(
    prepared: PreparedOutputView,
    opened: Seq<OpenedPakView>,
    input: usize,
    paths: Seq<Seq<char>>,
) -> bool {
    forall|i: int|
        0 <= i < paths.len() ==> (archive_path(
            opened[input as int],
            #[trigger] paths[i],
        ) matches Ok(inner) && output_bytes(prepared.entries, opened, paths[i]) == mapped_bytes(
            opened[input as int].archive,
            inner,
            MAX_IN_MEMORY_ENTRY_BYTES,
        ))
}

/// What is not merged has in the output the bytes of the Pak that was chosen for it, or
/// of the first that holds it where there was nothing to choose.
pub proof fn chosen_files_have_the_bytes_of_the_chosen_pak(
    plan: MergePlanView,
    resolutions: ResolutionSetView,
    opened: Seq<OpenedPakView>,
    databases: Seq<(Seq<char>, Seq<ParsedDbProviderView>)>,
    supplies: Seq<DatabaseSupply>,
    a: int,
)
    requires
        opened.len() <= usize::MAX,
        0 <= a < plan.assets.len(),
        plan.assets[a].action != AssetActionKind::MergeDatabase,
    ensures
        prepared_output(plan, resolutions, opened, databases, supplies) matches Ok(prepared) ==> {
            let carrier = input_with_id(opened, plan.carrier_input_id, 0)->0;
            let context = job_context(plan, resolutions, opened, databases, supplies, carrier);
            exists|input: usize, paths: Seq<Seq<char>>| #[trigger]
                provides(context, plan.assets[a], input, paths) && is_the_right_one(
                    context,
                    plan.assets[a],
                    input,
                ) && holds_bytes_of(prepared, opened, input, paths)
        },
{
    if let Ok(prepared) = prepared_output(plan, resolutions, opened, databases, supplies) {
        let carrier = input_with_id(opened, plan.carrier_input_id, 0)->0;
        let context = job_context(plan, resolutions, opened, databases, supplies, carrier);
        let parts = outputs_hold_the_files_of_all_assets(
            plan,
            resolutions,
            opened,
            databases,
            supplies,
        );
        let asset = plan.assets[a];
        reveal(are_the_files);
        let (input, paths) = choose|input: usize, paths: Seq<Seq<char>>| #[trigger]
            are_own_files(context, asset, input, paths, parts[a]);
        assert(provides(context, asset, input, paths));
        assert forall|i: int| 0 <= i < paths.len() implies (archive_path(
            opened[input as int],
            #[trigger] paths[i],
        ) matches Ok(inner) && output_bytes(prepared.entries, opened, paths[i]) == mapped_bytes(
            opened[input as int].archive,
            inner,
            MAX_IN_MEMORY_ENTRY_BYTES,
        )) by {
            assert(is_written_whole(prepared, opened, parts[a][i]));
            assert(taken_from(parts[a][i], opened, input, paths[i]));
        }
    }
}

/// A merged database has in the output the two files that were made of it.
pub proof fn merged_files_have_the_bytes_that_were_made(
    plan: MergePlanView,
    resolutions: ResolutionSetView,
    opened: Seq<OpenedPakView>,
    databases: Seq<(Seq<char>, Seq<ParsedDbProviderView>)>,
    supplies: Seq<DatabaseSupply>,
    a: int,
)
    requires
        opened.len() <= usize::MAX,
        0 <= a < plan.assets.len(),
        plan.assets[a].action == AssetActionKind::MergeDatabase,
    ensures
        prepared_output(plan, resolutions, opened, databases, supplies) matches Ok(prepared) ==> {
            let supply = merges(plan.assets.take(a)) as int;
            let carrier = input_with_id(opened, plan.carrier_input_id, 0)->0;
            let context = job_context(plan, resolutions, opened, databases, supplies, carrier);
            get(databases, folded(plan.assets[a].virtual_path)) matches Some(parsed) && (
            made_database(context, parsed, supply) matches Ok(built) && output_bytes(prepared.entries, opened, built.uasset_entry)
                == Ok::<Seq<u8>, PakErrorView>(built.uasset) && output_bytes(
                prepared.entries,
                opened,
                built.uexp_entry,
            ) == Ok::<Seq<u8>, PakErrorView>(built.uexp))
        },
{
    if let Ok(prepared) = prepared_output(plan, resolutions, opened, databases, supplies) {
        let carrier = input_with_id(opened, plan.carrier_input_id, 0)->0;
        let context = job_context(plan, resolutions, opened, databases, supplies, carrier);
        let parts = outputs_hold_the_files_of_all_assets(
            plan,
            resolutions,
            opened,
            databases,
            supplies,
        );
        let asset = plan.assets[a];
        assert(are_the_files(context, asset, merges(plan.assets.take(a)) as int, parts[a]));
        reveal(are_the_files);
        assert(are_merged_files(context, asset, merges(plan.assets.take(a)) as int, parts[a]));
        assert(parts[a].len() == 2);
        assert(is_written_whole(prepared, opened, parts[a][0]));
        assert(is_written_whole(prepared, opened, parts[a][1]));
    }
}

/// A file with this path and these bytes is among the files.
pub open spec fn is_ordered(
    files: Seq<PakWriteEntryView>,
    path: Seq<char>,
    data: std::result::Result<Seq<u8>, PakErrorView>,
) -> bool {
    exists|i: int|
        0 <= i < files.len() && (#[trigger] files[i]).path == path && data == Ok::<
            Seq<u8>,
            PakErrorView,
        >(files[i].data)
}

proof fn sources_follow_the_paths(
    done: Seq<PakWriteEntryView>,
    entries: Seq<PlacedEntryView>,
    opened: Seq<OpenedPakView>,
    paths: Seq<Seq<char>>,
)
    ensures
        sources_from(done, entries, opened, paths) matches Ok(files) ==> {
            &&& files.len() == done.len() + paths.len()
            &&& files.take(done.len() as int) == done
            &&& forall|i: int|
                0 <= i < paths.len() ==> files[done.len() + i].path == #[trigger] paths[i]
                    && output_bytes(entries, opened, paths[i]) == Ok::<Seq<u8>, PakErrorView>(
                    files[done.len() + i].data,
                )
        },
    decreases paths.len(),
{
    if paths.len() == 0 {
        assert(done.take(done.len() as int) =~= done);
    } else if let Ok(data) = output_bytes(entries, opened, paths[0]) {
        let item = PakWriteEntryView { path: paths[0], data };
        let more = done.push(item);
        let rest = paths.skip(1);
        sources_follow_the_paths(more, entries, opened, rest);
        if let Ok(files) = sources_from(more, entries, opened, rest) {
            assert(files.take(more.len() as int).take(done.len() as int) =~= files.take(
                done.len() as int,
            ));
            assert(more.take(done.len() as int) =~= done);
            assert forall|i: int| 0 <= i < paths.len() implies files[done.len() + i].path
                == #[trigger] paths[i] && output_bytes(entries, opened, paths[i]) == Ok::<
                Seq<u8>,
                PakErrorView,
            >(files[done.len() + i].data) by {
                if i == 0 {
                    assert(files.take(more.len() as int)[done.len() as int] == item);
                } else {
                    assert(rest[i - 1] == paths[i]);
                }
            }
        }
    }
}

proof fn keyed_paths_are_the_given(
    met: Seq<(Seq<char>, Seq<char>)>,
    rest: Seq<Seq<char>>,
)
    ensures
        keyed_from(met, rest) matches Ok(all) ==> {
            &&& all.len() == met.len() + rest.len()
            &&& forall|path: Seq<char>|
                values(met).contains(path) ==> #[trigger] values(all).contains(path)
            &&& forall|i: int| 0 <= i < rest.len() ==> values(all).contains(#[trigger] rest[i])
        },
    decreases rest.len(),
{
    if rest.len() > 0 {
        if let Ok(path) = normal_path(rest[0]) {
            assert(path == rest[0]);
            let key = sort_key_of(path);
            if get(met, key) is None {
                let at = slot(met, key);
                slot_parts(met, key);
                let more = put(met, key, path);
                assert(more == met.insert(at, (key, path)));
                keyed_paths_are_the_given(more, rest.skip(1));
                if let Ok(all) = keyed_from(more, rest.skip(1)) {
                    assert(values(more)[at] == path);
                    assert(values(more).contains(path));
                    assert forall|other: Seq<char>| values(met).contains(
                        other,
                    ) implies #[trigger] values(all).contains(other) by {
                        let i = choose|i: int| 0 <= i < met.len() && values(met)[i] == other;
                        if i < at {
                            assert(values(more)[i] == other);
                        } else {
                            assert(values(more)[i + 1] == other);
                        }
                        assert(values(more).contains(other));
                    }
                    assert forall|i: int| 0 <= i < rest.len() implies values(all).contains(
                        #[trigger] rest[i],
                    ) by {
                        if i > 0 {
                            assert(rest.skip(1)[i - 1] == rest[i]);
                        }
                    }
                }
            }
        }
    }
}

/// The archive writer is told to write as many files as an output has, and each of
/// them under its path with the bytes that the output has there.
pub proof fn all_files_are_ordered_with_their_bytes(
    prepared: PreparedOutputView,
    opened: Seq<OpenedPakView>,
    compression: OutputCompression,
    oodle_failure: Option<Seq<char>>,
)
    ensures
        output_order(prepared, opened, compression, oodle_failure) matches Ok(order) ==> {
            &&& order.entries.len() == prepared.entries.len()
            &&& forall|i: int|
                0 <= i < prepared.entries.len() ==> is_ordered(
                    order.entries,
                    (#[trigger] prepared.entries[i]).entry.path,
                    output_bytes(prepared.entries, opened, prepared.entries[i].entry.path),
                )
        },
{
    if let Ok(order) = output_order(prepared, opened, compression, oodle_failure) {
        let paths = entry_paths(prepared.entries);
        let sorted = keyed(paths)->Ok_0;
        keyed_paths_are_the_given(Seq::empty(), paths);
        let listed = values(sorted);
        sources_follow_the_paths(Seq::empty(), prepared.entries, opened, listed);
        assert forall|i: int| 0 <= i < prepared.entries.len() implies is_ordered(
            order.entries,
            (#[trigger] prepared.entries[i]).entry.path,
            output_bytes(prepared.entries, opened, prepared.entries[i].entry.path),
        ) by {
            assert(paths[i] == prepared.entries[i].entry.path);
            assert(listed.contains(paths[i]));
            let j = choose|j: int| 0 <= j < listed.len() && listed[j] == paths[i];
            assert(order.entries[j].path == listed[j]);
        }
    }
}

} // verus!
