//! Nothing of the inputs is lost: what each input holds is compared, planned and
//! written.
use vstd::prelude::*;

use super::analyze::{
    analysis_of, by_path, gathered_from, outdated_entries, profile_warnings, with_output,
    AnalysisView, GatheredView,
};
use super::database::{loaded_from, loaded_one, ParsedDbProviderView, Reading};
use super::group::carrier_from;
use super::ids::folded;
use super::opened::{opened_at, OpenedPakView};
use super::output::{
    by_key, input_with_id, loose_donor, loose_with, nothing_staged, ordered_output, package_donor,
    package_sources, placed_files_stand_in_a_row, prepared_output, with_asset, with_assets,
    DatabaseSupply, OutputContextView, OutputEntryView, OutputSourceView, PlacedEntryView,
    StagedView,
};
use super::providers::{
    archive_path, database_candidate, is_database_pair, joined_under, loose_from, loose_in,
    packages_from, packages_in, AnalysisUnitView, GroupProviderView, LooseProviderView,
};
use super::resolve::{asset_conflict, preferred_from, provider_with, selected_input};
use super::types::{
    AnalysisRequestView, AssetActionKind, AssetPlanView, ProfileDetectionView, ResolutionSetView,
};
use super::units::{
    outputs_from, readings_of, unit_output, units_of, AnalysisUnitOutputView, ParsedDatabaseView,
};
use crate::ordered::{
    ascending, get, put, put_keeps_order, put_then_get, slot, slot_parts,
    text_order_is_strict_and_total, values,
};
use crate::pak::paths::PackageGroupView;
use crate::sorting::{sorted, sorted_is_an_ordering};

verus! {

/// The list under a key holds an item.
pub open spec fn listed_under<W>(table: Seq<(Seq<char>, Seq<W>)>, key: Seq<char>, item: W) -> bool {
    get(table, key) matches Some(list) && list.contains(item)
}

/// Each list has an item, and its items have the name under which it stands.
pub open spec fn named_lists<W>(
    table: Seq<(Seq<char>, Seq<W>)>,
    name: spec_fn(W) -> Seq<char>,
) -> bool {
    &&& ascending(table)
    &&& forall|k: int| 0 <= k < table.len() ==> (#[trigger] table[k]).1.len() > 0
    &&& forall|k: int, i: int|
        0 <= k < table.len() && 0 <= i < table[k].1.len() ==> name(#[trigger] table[k].1[i])
            == table[k].0
}

pub open spec fn package_name() -> spec_fn(GroupProviderView) -> Seq<char> {
    |provider: GroupProviderView| folded(provider.group.base_path)
}

pub open spec fn loose_name() -> spec_fn(LooseProviderView) -> Seq<char> {
    |provider: LooseProviderView| folded(provider.path)
}

proof fn joining_keeps<W>(
    table: Seq<(Seq<char>, Seq<W>)>,
    name: spec_fn(W) -> Seq<char>,
    item: W,
)
    requires
        named_lists(table, name),
    ensures
        named_lists(joined_under(table, name(item), item), name),
        listed_under(joined_under(table, name(item), item), name(item), item),
        forall|key: Seq<char>, other: W|
            listed_under(table, key, other) ==> #[trigger] listed_under(
                joined_under(table, name(item), item),
                key,
                other,
            ),
{
    let key = name(item);
    let list = match get(table, key) {
        Some(list) => list.push(item),
        None => seq![item],
    };
    let after = joined_under(table, key, item);
    slot_parts(table, key);
    let at = slot(table, key);
    put_keeps_order(table, key, list);
    put_then_get(table, key, list, key);
    assert(list[list.len() - 1] == item);
    assert(list.contains(item));
    let found = at < table.len() && table[at].0 == key;
    assert forall|i: int| 0 <= i < list.len() implies name(#[trigger] list[i]) == key by {
        if found && i < list.len() - 1 {
            assert(list[i] == table[at].1[i]);
        }
    }
    assert forall|k: int| 0 <= k < after.len() implies (#[trigger] after[k]).1.len() > 0 by {
        if k == at {
            assert(after[k] == (key, list));
        } else if found || k < at {
            assert(after[k] == table[k]);
        } else {
            assert(after[k] == table[k - 1]);
        }
    }
    assert forall|k: int, i: int| 0 <= k < after.len() && 0 <= i < after[k].1.len() implies name(
        #[trigger] after[k].1[i],
    ) == after[k].0 by {
        if k == at {
            assert(after[k] == (key, list));
            assert(name(list[i]) == key);
        } else if found || k < at {
            assert(after[k] == table[k]);
            assert(name(table[k].1[i]) == table[k].0);
        } else {
            assert(after[k] == table[k - 1]);
            assert(name(table[k - 1].1[i]) == table[k - 1].0);
        }
    }
    assert forall|other_key: Seq<char>, other: W| listed_under(table, other_key, other) implies
        #[trigger] listed_under(after, other_key, other) by {
        put_then_get(table, key, list, other_key);
        if other_key == key {
            let known = get(table, key)->0;
            let i = choose|i: int| 0 <= i < known.len() && known[i] == other;
            assert(list[i] == other);
        }
    }
}

proof fn packages_in_keeps(
    table: Seq<(Seq<char>, Seq<GroupProviderView>)>,
    input_index: usize,
    groups: Seq<PackageGroupView>,
)
    requires
        named_lists(table, package_name()),
    ensures
        named_lists(packages_in(table, input_index, groups), package_name()),
        forall|key: Seq<char>, other: GroupProviderView|
            listed_under(table, key, other) ==> #[trigger] listed_under(
                packages_in(table, input_index, groups),
                key,
                other,
            ),
        forall|i: int|
            0 <= i < groups.len() ==> listed_under(
                packages_in(table, input_index, groups),
                folded((#[trigger] groups[i]).base_path),
                GroupProviderView { input_index, group: groups[i] },
            ),
    decreases groups.len(),
{
    if groups.len() > 0 {
        let item = GroupProviderView { input_index, group: groups[0] };
        let rest = groups.skip(1);
        let next = joined_under(table, folded(groups[0].base_path), item);
        let after = packages_in(table, input_index, groups);
        joining_keeps(table, package_name(), item);
        packages_in_keeps(next, input_index, rest);
        assert forall|i: int| 0 <= i < groups.len() implies listed_under(
            after,
            folded((#[trigger] groups[i]).base_path),
            GroupProviderView { input_index, group: groups[i] },
        ) by {
            if i > 0 {
                assert(rest[i - 1] == groups[i]);
            }
        }
    }
}

proof fn packages_from_keeps(
    table: Seq<(Seq<char>, Seq<GroupProviderView>)>,
    opened: Seq<OpenedPakView>,
    at: int,
)
    requires
        0 <= at <= opened.len() <= usize::MAX,
        named_lists(table, package_name()),
    ensures
        named_lists(packages_from(table, opened, at), package_name()),
        forall|key: Seq<char>, other: GroupProviderView|
            listed_under(table, key, other) ==> #[trigger] listed_under(
                packages_from(table, opened, at),
                key,
                other,
            ),
        forall|k: int, i: int|
            at <= k < opened.len() && 0 <= i < opened[k].canonical_packages.packages.len()
                ==> listed_under(
                packages_from(table, opened, at),
                folded((#[trigger] opened[k].canonical_packages.packages[i]).base_path),
                GroupProviderView {
                    input_index: k as usize,
                    group: opened[k].canonical_packages.packages[i],
                },
            ),
    decreases opened.len() - at,
{
    if at < opened.len() {
        let groups = opened[at].canonical_packages.packages;
        packages_in_keeps(table, at as usize, groups);
        packages_from_keeps(packages_in(table, at as usize, groups), opened, at + 1);
    }
}

proof fn loose_in_keeps(
    table: Seq<(Seq<char>, Seq<LooseProviderView>)>,
    input_index: usize,
    paths: Seq<Seq<char>>,
)
    requires
        named_lists(table, loose_name()),
    ensures
        named_lists(loose_in(table, input_index, paths), loose_name()),
        forall|key: Seq<char>, other: LooseProviderView|
            listed_under(table, key, other) ==> #[trigger] listed_under(
                loose_in(table, input_index, paths),
                key,
                other,
            ),
        forall|i: int|
            0 <= i < paths.len() ==> listed_under(
                loose_in(table, input_index, paths),
                folded(#[trigger] paths[i]),
                LooseProviderView { input_index, path: paths[i] },
            ),
    decreases paths.len(),
{
    if paths.len() > 0 {
        let item = LooseProviderView { input_index, path: paths[0] };
        let rest = paths.skip(1);
        let next = joined_under(table, folded(paths[0]), item);
        let after = loose_in(table, input_index, paths);
        joining_keeps(table, loose_name(), item);
        loose_in_keeps(next, input_index, rest);
        assert forall|i: int| 0 <= i < paths.len() implies listed_under(
            after,
            folded(#[trigger] paths[i]),
            LooseProviderView { input_index, path: paths[i] },
        ) by {
            if i > 0 {
                assert(rest[i - 1] == paths[i]);
            }
        }
    }
}

proof fn loose_from_keeps(
    table: Seq<(Seq<char>, Seq<LooseProviderView>)>,
    opened: Seq<OpenedPakView>,
    at: int,
)
    requires
        0 <= at <= opened.len() <= usize::MAX,
        named_lists(table, loose_name()),
    ensures
        named_lists(loose_from(table, opened, at), loose_name()),
        forall|key: Seq<char>, other: LooseProviderView|
            listed_under(table, key, other) ==> #[trigger] listed_under(
                loose_from(table, opened, at),
                key,
                other,
            ),
        forall|k: int, i: int|
            at <= k < opened.len() && 0 <= i < opened[k].canonical_packages.loose_entries.len()
                ==> listed_under(
                loose_from(table, opened, at),
                folded(#[trigger] opened[k].canonical_packages.loose_entries[i]),
                LooseProviderView {
                    input_index: k as usize,
                    path: opened[k].canonical_packages.loose_entries[i],
                },
            ),
    decreases opened.len() - at,
{
    if at < opened.len() {
        let paths = opened[at].canonical_packages.loose_entries;
        loose_in_keeps(table, at as usize, paths);
        loose_from_keeps(loose_in(table, at as usize, paths), opened, at + 1);
    }
}

/// A unit compares a package of an input.
pub open spec fn compares_package(unit: AnalysisUnitView, provider: GroupProviderView) -> bool {
    unit matches AnalysisUnitView::Package(list) && list.contains(provider)
}

/// A unit compares a loose file of an input.
pub open spec fn compares_file(unit: AnalysisUnitView, provider: LooseProviderView) -> bool {
    unit matches AnalysisUnitView::Loose(list) && list.contains(provider)
}

/// The packages that the inputs provide.
pub open spec fn package_table(opened: Seq<OpenedPakView>) -> Seq<
    (Seq<char>, Seq<GroupProviderView>),
> {
    packages_from(Seq::empty(), opened, 0)
}

/// The loose files that the inputs provide.
pub open spec fn loose_table(opened: Seq<OpenedPakView>) -> Seq<(Seq<char>, Seq<LooseProviderView>)> {
    loose_from(Seq::empty(), opened, 0)
}

proof fn tables_are_named(opened: Seq<OpenedPakView>)
    requires
        opened.len() <= usize::MAX,
    ensures
        named_lists(package_table(opened), package_name()),
        named_lists(loose_table(opened), loose_name()),
        forall|k: int, i: int|
            0 <= k < opened.len() && 0 <= i < opened[k].canonical_packages.packages.len()
                ==> listed_under(
                package_table(opened),
                folded((#[trigger] opened[k].canonical_packages.packages[i]).base_path),
                GroupProviderView {
                    input_index: k as usize,
                    group: opened[k].canonical_packages.packages[i],
                },
            ),
        forall|k: int, i: int|
            0 <= k < opened.len() && 0 <= i < opened[k].canonical_packages.loose_entries.len()
                ==> listed_under(
                loose_table(opened),
                folded(#[trigger] opened[k].canonical_packages.loose_entries[i]),
                LooseProviderView {
                    input_index: k as usize,
                    path: opened[k].canonical_packages.loose_entries[i],
                },
            ),
{
    packages_from_keeps(Seq::empty(), opened, 0);
    loose_from_keeps(Seq::empty(), opened, 0);
}

/// Every package of every input is compared with those of the other inputs that
/// bear its name.
pub proof fn every_package_is_compared(opened: Seq<OpenedPakView>, input: int, at: int)
    requires
        opened.len() <= usize::MAX,
        0 <= input < opened.len(),
        0 <= at < opened[input].canonical_packages.packages.len(),
    ensures
        exists|u: int|
            0 <= u < units_of(opened).len() && #[trigger] compares_package(
                units_of(opened)[u],
                GroupProviderView {
                    input_index: input as usize,
                    group: opened[input].canonical_packages.packages[at],
                },
            ),
{
    tables_are_named(opened);
    let group = opened[input].canonical_packages.packages[at];
    let provider = GroupProviderView { input_index: input as usize, group };
    let table = package_table(opened);
    let key = folded(group.base_path);
    assert(listed_under(table, key, provider));
    slot_parts(table, key);
    let u = slot(table, key);
    assert(units_of(opened)[u] == AnalysisUnitView::Package(table[u].1));
    assert(compares_package(units_of(opened)[u], provider));
}

/// Every loose file of every input is compared with those of the other inputs that
/// bear its name.
pub proof fn every_loose_file_is_compared(opened: Seq<OpenedPakView>, input: int, at: int)
    requires
        opened.len() <= usize::MAX,
        0 <= input < opened.len(),
        0 <= at < opened[input].canonical_packages.loose_entries.len(),
    ensures
        exists|u: int|
            0 <= u < units_of(opened).len() && #[trigger] compares_file(
                units_of(opened)[u],
                LooseProviderView {
                    input_index: input as usize,
                    path: opened[input].canonical_packages.loose_entries[at],
                },
            ),
{
    tables_are_named(opened);
    let path = opened[input].canonical_packages.loose_entries[at];
    let provider = LooseProviderView { input_index: input as usize, path };
    let table = loose_table(opened);
    assert(listed_under(table, folded(path), provider));
    slot_parts(table, folded(path));
    let u = package_table(opened).len() + slot(table, folded(path));
    assert(units_of(opened)[u] == AnalysisUnitView::Loose(table[slot(table, folded(path))].1));
    assert(compares_file(units_of(opened)[u], provider));
}

/// The name under which a unit is compared, letter case aside.
pub open spec fn unit_key(unit: AnalysisUnitView) -> Seq<char> {
    match unit {
        AnalysisUnitView::Package(list) => folded(list[0].group.base_path),
        AnalysisUnitView::Loose(list) => folded(list[0].path),
    }
}

/// The packages of databases that were read are those of the providers.
pub open spec fn read_from(
    parsed: Seq<ParsedDbProviderView>,
    providers: Seq<GroupProviderView>,
) -> bool {
    &&& parsed.len() == providers.len()
    &&& forall|i: int|
        0 <= i < parsed.len() ==> (#[trigger] parsed[i]).group == providers[i].group
}

proof fn loading_keeps_the_packages(
    done: Seq<ParsedDbProviderView>,
    opened: Seq<OpenedPakView>,
    providers: Seq<GroupProviderView>,
    readings: Seq<Reading>,
    all: Seq<GroupProviderView>,
)
    requires
        done.len() + providers.len() == all.len(),
        providers == all.skip(done.len() as int),
        read_from(done, all.take(done.len() as int)),
    ensures
        loaded_from(done, opened, providers, readings) matches Ok(parsed) ==> read_from(parsed, all),
    decreases providers.len(),
{
    if providers.len() == 0 {
        assert(all.take(done.len() as int) =~= all);
    } else {
        match loaded_one(opened, providers[0], readings[0]) {
            Err(_) => {},
            Ok(parsed) => {
                let more = done.push(parsed);
                assert(providers[0] == all[done.len() as int]);
                assert(providers.skip(1) =~= all.skip(more.len() as int));
                let front = all.take(more.len() as int);
                assert forall|i: int| 0 <= i < more.len() implies (#[trigger] more[i]).group
                    == front[i].group by {
                    if i < done.len() {
                        assert(more[i] == done[i]);
                        assert(done[i].group == all.take(done.len() as int)[i].group);
                    }
                }
                loading_keeps_the_packages(more, opened, providers.skip(1), readings.skip(1), all);
            },
        }
    }
}

/// What a unit yields bears the unit's name; databases that it is to merge were
/// read from the providers of the unit.
pub open spec fn yields_in_order(unit: AnalysisUnitView, output: AnalysisUnitOutputView) -> bool {
    &&& folded(output.asset.virtual_path) == unit_key(unit)
    &&& match (unit, output.parsed_database) {
        (AnalysisUnitView::Package(list), Some(database)) => output.asset.action
            == AssetActionKind::MergeDatabase && database.key == unit_key(unit) && read_from(
            database.providers,
            list,
        ) && database_candidate(list),
        (_, Some(_)) => false,
        (_, None) => output.asset.action != AssetActionKind::MergeDatabase,
    }
}

proof fn units_yield_in_order(
    opened: Seq<OpenedPakView>,
    unit: AnalysisUnitView,
    carrier_index: usize,
    readings: Seq<Reading>,
)
    ensures
        unit_output(opened, unit, carrier_index, readings) matches Ok(output) ==> yields_in_order(
            unit,
            output,
        ),
{
    reveal(unit_output);
    match unit {
        AnalysisUnitView::Package(list) => {
            assert(list.skip(0) =~= list);
            let none = Seq::<ParsedDbProviderView>::empty();
            assert(read_from(none, list.take(0)));
            loading_keeps_the_packages(none, opened, list, readings, list);
        },
        AnalysisUnitView::Loose(_) => {},
    }
}

proof fn outputs_follow_the_units(
    done: Seq<AnalysisUnitOutputView>,
    opened: Seq<OpenedPakView>,
    units: Seq<AnalysisUnitView>,
    carrier_index: usize,
    readings: Seq<Vec<Reading>>,
    at: int,
)
    requires
        0 <= at <= units.len(),
        done.len() == at,
        forall|u: int| 0 <= u < at ==> yields_in_order(units[u], #[trigger] done[u]),
    ensures
        outputs_from(done, opened, units, carrier_index, readings, at) matches Ok(outputs)
            ==> outputs.len() == units.len() && forall|u: int|
            0 <= u < units.len() ==> yields_in_order(units[u], #[trigger] outputs[u]),
    decreases units.len() - at,
{
    if at < units.len() {
        units_yield_in_order(opened, units[at], carrier_index, readings_of(readings, at));
        match unit_output(opened, units[at], carrier_index, readings_of(readings, at)) {
            Err(_) => {},
            Ok(output) => {
                let more = done.push(output);
                assert forall|u: int| 0 <= u < at + 1 implies yields_in_order(
                    units[u],
                    #[trigger] more[u],
                ) by {
                    if u < at {
                        assert(more[u] == done[u]);
                    }
                }
                outputs_follow_the_units(more, opened, units, carrier_index, readings, at + 1);
            },
        }
    }
}

/// The assets that units yield.
pub open spec fn yielded_assets(outputs: Seq<AnalysisUnitOutputView>) -> Seq<AssetPlanView> {
    outputs.map_values(|output: AnalysisUnitOutputView| output.asset)
}

proof fn gathering_keeps_the_assets(state: GatheredView, outputs: Seq<AnalysisUnitOutputView>)
    requires
        ascending(state.databases),
    ensures
        gathered_from(state, outputs) matches Ok(found) ==> found.assets == state.assets
            + yielded_assets(outputs),
    decreases outputs.len(),
{
    if outputs.len() == 0 {
        assert(state.assets + yielded_assets(outputs) =~= state.assets);
    } else {
        match with_output(state, outputs[0]) {
            Err(_) => {},
            Ok(next) => {
                after_one_more(state, outputs[0]);
                gathering_keeps_the_assets(next, outputs.skip(1));
                assert(state.assets.push(outputs[0].asset) + yielded_assets(outputs.skip(1))
                    =~= state.assets + yielded_assets(outputs));
            },
        }
    }
}

proof fn after_one_more(state: GatheredView, output: AnalysisUnitOutputView)
    requires
        ascending(state.databases),
    ensures
        with_output(state, output) matches Ok(next) ==> {
            &&& ascending(next.databases)
            &&& next.assets == state.assets.push(output.asset)
            &&& output.parsed_database matches Some(database) ==> get(next.databases, database.key)
                == Some(database.providers)
            &&& forall|key: Seq<char>|
                !(output.parsed_database matches Some(database) && database.key == key)
                    ==> #[trigger] get(next.databases, key) == get(state.databases, key)
        },
{
    match output.parsed_database {
        None => {},
        Some(database) => {
            put_keeps_order(state.databases, database.key, database.providers);
            let after = put(state.databases, database.key, database.providers);
            put_then_get(state.databases, database.key, database.providers, database.key);
            assert forall|key: Seq<char>| database.key != key implies #[trigger] get(after, key)
                == get(state.databases, key) by {
                put_then_get(state.databases, database.key, database.providers, key);
            }
        },
    }
}

/// An output brings the database with a key.
pub open spec fn brings(output: AnalysisUnitOutputView, key: Seq<char>) -> bool {
    output.parsed_database matches Some(database) && database.key == key
}

proof fn databases_stay(state: GatheredView, outputs: Seq<AnalysisUnitOutputView>, key: Seq<char>)
    requires
        ascending(state.databases),
        forall|v: int| 0 <= v < outputs.len() ==> !brings(#[trigger] outputs[v], key),
    ensures
        gathered_from(state, outputs) matches Ok(found) ==> get(found.databases, key) == get(
            state.databases,
            key,
        ),
    decreases outputs.len(),
{
    if outputs.len() > 0 {
        after_one_more(state, outputs[0]);
        match with_output(state, outputs[0]) {
            Err(_) => {},
            Ok(next) => {
                assert(!brings(outputs[0], key));
                let rest = outputs.skip(1);
                assert forall|v: int| 0 <= v < rest.len() implies !brings(#[trigger] rest[v], key) by {
                    assert(rest[v] == outputs[v + 1]);
                }
                databases_stay(next, rest, key);
            },
        }
    }
}

proof fn brought_databases_are_found(
    state: GatheredView,
    outputs: Seq<AnalysisUnitOutputView>,
    u: int,
    database: ParsedDatabaseView,
)
    requires
        ascending(state.databases),
        0 <= u < outputs.len(),
        outputs[u].parsed_database == Some(database),
        forall|v: int| u < v < outputs.len() ==> !brings(#[trigger] outputs[v], database.key),
    ensures
        gathered_from(state, outputs) matches Ok(found) ==> get(found.databases, database.key)
            == Some(database.providers),
    decreases outputs.len(),
{
    after_one_more(state, outputs[0]);
    match with_output(state, outputs[0]) {
        Err(_) => {},
        Ok(next) => {
            let rest = outputs.skip(1);
            assert forall|v: int| u - 1 < v < rest.len() implies !brings(
                #[trigger] rest[v],
                database.key,
            ) by {
                assert(rest[v] == outputs[v + 1]);
            }
            if u == 0 {
                databases_stay(next, rest, database.key);
            } else {
                assert(rest[u - 1] == outputs[u]);
                brought_databases_are_found(next, rest, u - 1, database);
            }
        },
    }
}

proof fn sorting_keeps_each<W>(items: Seq<(Seq<char>, W)>, i: int)
    requires
        0 <= i < items.len(),
    ensures
        values(sorted(items)).contains(items[i].1),
        values(sorted(items)).len() == items.len(),
{
    broadcast use vstd::seq_lib::group_to_multiset_ensures;

    sorted_is_an_ordering(items);
    assert(items.contains(items[i]));
    assert(sorted(items).to_multiset().count(items[i]) > 0);
    assert(sorted(items).contains(items[i]));
    let j = choose|j: int| 0 <= j < sorted(items).len() && sorted(items)[j] == items[i];
    assert(values(sorted(items))[j] == items[i].1);
}

/// A list of plans has one for a unit, and where that one merges a database, the
/// database was read from the providers of the unit.
pub open spec fn planned(found: AnalysisView, unit: AnalysisUnitView, asset: AssetPlanView) -> bool {
    &&& found.plan.assets.contains(asset)
    &&& folded(asset.virtual_path) == unit_key(unit)
    &&& asset.action == AssetActionKind::MergeDatabase ==> match unit {
        AnalysisUnitView::Package(list) => database_candidate(list) && (get(
            found.databases,
            unit_key(unit),
        ) matches Some(parsed) && read_from(parsed, list)),
        AnalysisUnitView::Loose(_) => false,
    }
}

proof fn package_names_differ(opened: Seq<OpenedPakView>, u: int, v: int)
    requires
        opened.len() <= usize::MAX,
        0 <= u < v < units_of(opened).len(),
        units_of(opened)[v] is Package,
    ensures
        units_of(opened)[u] is Package,
        unit_key(units_of(opened)[u]) != unit_key(units_of(opened)[v]),
{
    tables_are_named(opened);
    let table = package_table(opened);
    assert(v < table.len());
    assert(units_of(opened)[u] == AnalysisUnitView::Package(table[u].1));
    assert(units_of(opened)[v] == AnalysisUnitView::Package(table[v].1));
    assert(package_name()(table[u].1[0]) == table[u].0);
    assert(package_name()(table[v].1[0]) == table[v].0);
    text_order_is_strict_and_total(table[u].0, table[v].0, table[u].0);
}

/// Every unit of a job has its place in the plan, and the plan has no other
/// places.
pub proof fn every_unit_is_planned(
    request: AnalysisRequestView,
    opened: Seq<OpenedPakView>,
    detection: ProfileDetectionView,
    readings: Seq<Vec<Reading>>,
    steps_per_unit: int,
    u: int,
)
    requires
        opened.len() <= usize::MAX,
        0 <= u < units_of(opened).len(),
    ensures
        analysis_of(request, opened, detection, readings, steps_per_unit) matches Ok(found) ==> {
            &&& found.plan.assets.len() == units_of(opened).len()
            &&& exists|asset: AssetPlanView| #[trigger] planned(found, units_of(opened)[u], asset)
        },
{
    let units = units_of(opened);
    match analysis_of(request, opened, detection, readings, steps_per_unit) {
        Err(_) => {},
        Ok(found) => {
            let carrier = opened_at(opened, request.carrier_path)->0;
            let none = Seq::<AnalysisUnitOutputView>::empty();
            outputs_follow_the_units(none, opened, units, carrier as usize, readings, 0);
            let outputs = outputs_from(none, opened, units, carrier as usize, readings, 0)->Ok_0;
            let start = GatheredView {
                assets: Seq::empty(),
                conflicts: Seq::empty(),
                warnings: outdated_entries(opened)
                    + profile_warnings(detection),
                databases: Seq::empty(),
                cached_bytes: 0,
            };
            let all = gathered_from(start, outputs)->Ok_0;
            gathering_keeps_the_assets(start, outputs);
            assert(all.assets =~= yielded_assets(outputs));
            let asset = outputs[u].asset;
            assert(by_path(all.assets)[u].1 == asset);
            sorting_keeps_each(by_path(all.assets), u);
            assert(found.plan.assets.contains(asset));
            assert(yields_in_order(units[u], outputs[u]));
            if asset.action == AssetActionKind::MergeDatabase {
                let database = outputs[u].parsed_database->0;
                assert forall|v: int| u < v < outputs.len() implies !brings(
                    #[trigger] outputs[v],
                    database.key,
                ) by {
                    assert(yields_in_order(units[v], outputs[v]));
                    if units[v] is Package {
                        package_names_differ(opened, u, v);
                    }
                }
                brought_databases_are_found(start, outputs, u, database);
            }
            assert(planned(found, units[u], asset));
        },
    }
}

/// A list goes on from another.
pub open spec fn goes_on(after: Seq<OutputEntryView>, before: Seq<OutputEntryView>) -> bool {
    &&& before.len() <= after.len()
    &&& forall|i: int| 0 <= i < before.len() ==> after[i] == #[trigger] before[i]
}

/// A list has a file with a path.
pub open spec fn has_path(entries: Seq<OutputEntryView>, path: Seq<char>) -> bool {
    exists|i: int| 0 <= i < entries.len() && (#[trigger] entries[i]).path == path
}

/// A list has files with all paths of another.
pub open spec fn has_paths(entries: Seq<OutputEntryView>, paths: Seq<Seq<char>>) -> bool {
    forall|i: int| 0 <= i < paths.len() ==> has_path(entries, #[trigger] paths[i])
}

proof fn going_on_keeps_paths(after: Seq<OutputEntryView>, before: Seq<OutputEntryView>)
    requires
        goes_on(after, before),
    ensures
        forall|path: Seq<char>| #[trigger] has_path(before, path) ==> has_path(after, path),
{
    assert forall|path: Seq<char>| #[trigger] has_path(before, path) implies has_path(after, path) by {
        let i = choose|i: int| 0 <= i < before.len() && (#[trigger] before[i]).path == path;
        assert(after[i] == before[i]);
    }
}

proof fn packages_bring_all_files(
    done: Seq<OutputEntryView>,
    input: OpenedPakView,
    input_index: usize,
    paths: Seq<Seq<char>>,
)
    ensures
        package_sources(done, input, input_index, paths) matches Ok(after) ==> goes_on(after, done)
            && has_paths(after, paths),
    decreases paths.len(),
{
    if paths.len() > 0 {
        match archive_path(input, paths[0]) {
            Err(_) => {},
            Ok(path) => {
                let entry = OutputEntryView {
                    path: paths[0],
                    source: OutputSourceView::Pak { input_index, path },
                };
                let more = done.push(entry);
                let rest = paths.skip(1);
                packages_bring_all_files(more, input, input_index, rest);
                match package_sources(more, input, input_index, rest) {
                    Err(_) => {},
                    Ok(after) => {
                        assert forall|i: int| 0 <= i < done.len() implies after[i]
                            == #[trigger] done[i] by {
                            assert(more[i] == done[i]);
                        }
                        assert(after[done.len() as int] == more[done.len() as int]);
                        assert forall|i: int| 0 <= i < paths.len() implies has_path(
                            after,
                            #[trigger] paths[i],
                        ) by {
                            if i > 0 {
                                assert(rest[i - 1] == paths[i]);
                            }
                        }
                    },
                }
            },
        }
    }
}

proof fn assets_add_files(state: StagedView, context: OutputContextView, asset: AssetPlanView)
    ensures
        with_asset(state, context, asset) matches Ok(next) ==> goes_on(next.entries, state.entries),
{
    reveal(with_asset);
    match get(context.packages, folded(asset.virtual_path)) {
        Some(providers) => {
            if asset.action != AssetActionKind::MergeDatabase {
                match package_donor(context, asset, providers) {
                    Err(_) => {},
                    Ok(donor) => {
                        packages_bring_all_files(
                            state.entries,
                            context.opened[donor.input_index as int],
                            donor.input_index,
                            donor.group.components.paths(),
                        );
                    },
                }
            }
        },
        None => {},
    }
}

/// An asset was staged on the way to a list of files.
pub open spec fn staged_on_the_way(
    state: StagedView,
    context: OutputContextView,
    asset: AssetPlanView,
    entries: Seq<OutputEntryView>,
) -> bool {
    with_asset(state, context, asset) matches Ok(next) && goes_on(entries, next.entries)
}

proof fn each_asset_is_staged(
    state: StagedView,
    context: OutputContextView,
    assets: Seq<AssetPlanView>,
    a: int,
)
    requires
        0 <= a < assets.len(),
    ensures
        with_assets(state, context, assets) matches Ok(staged) ==> exists|step: StagedView|
            #[trigger] staged_on_the_way(step, context, assets[a], staged.entries),
    decreases assets.len(),
{
    match with_asset(state, context, assets[0]) {
        Err(_) => {},
        Ok(next) => {
            let rest = assets.skip(1);
            later_assets_add_files(next, context, rest);
            match with_assets(next, context, rest) {
                Err(_) => {},
                Ok(staged) => {
                    if a == 0 {
                        assert(staged_on_the_way(state, context, assets[0], staged.entries));
                    } else {
                        each_asset_is_staged(next, context, rest, a - 1);
                        assert(rest[a - 1] == assets[a]);
                    }
                },
            }
        },
    }
}

proof fn later_assets_add_files(
    state: StagedView,
    context: OutputContextView,
    assets: Seq<AssetPlanView>,
)
    ensures
        with_assets(state, context, assets) matches Ok(staged) ==> goes_on(
            staged.entries,
            state.entries,
        ),
    decreases assets.len(),
{
    if assets.len() > 0 {
        assets_add_files(state, context, assets[0]);
        match with_asset(state, context, assets[0]) {
            Err(_) => {},
            Ok(next) => {
                later_assets_add_files(next, context, assets.skip(1));
                match with_assets(next, context, assets.skip(1)) {
                    Err(_) => {},
                    Ok(staged) => {
                        assert forall|i: int| 0 <= i < state.entries.len() implies staged.entries[i]
                            == #[trigger] state.entries[i] by {
                            assert(next.entries[i] == state.entries[i]);
                        }
                    },
                }
            },
        }
    }
}

/// The output has a file with a path.
pub open spec fn is_written(entries: Seq<PlacedEntryView>, path: Seq<char>) -> bool {
    exists|i: int| 0 <= i < entries.len() && (#[trigger] entries[i]).entry.path == path
}

/// The output has all files of a list.
pub open spec fn all_written(entries: Seq<PlacedEntryView>, paths: Seq<Seq<char>>) -> bool {
    forall|i: int| 0 <= i < paths.len() ==> is_written(entries, #[trigger] paths[i])
}

proof fn staged_files_are_written(
    opened: Seq<OpenedPakView>,
    staged: StagedView,
    mount: Seq<char>,
)
    ensures
        ordered_output(staged, opened, mount) matches Ok(prepared) ==> forall|
            path: Seq<char>,
        | #[trigger]
            has_path(staged.entries, path) ==> is_written(prepared.entries, path),
{
    match ordered_output(staged, opened, mount) {
        Err(_) => {},
        Ok(prepared) => {
            let items = by_key(staged.entries);
            let entries = values(sorted(items));
            placed_files_stand_in_a_row(Seq::empty(), 0, opened, entries);
            assert forall|path: Seq<char>| #[trigger]
                has_path(staged.entries, path) implies is_written(prepared.entries, path) by {
                let i = choose|i: int|
                    0 <= i < staged.entries.len() && (#[trigger] staged.entries[i]).path == path;
                assert(items[i].1 == staged.entries[i]);
                sorting_keeps_each(items, i);
                let j = choose|j: int| 0 <= j < entries.len() && entries[j] == staged.entries[i];
                assert(prepared.entries[j].entry == entries[j]);
            }
        },
    }
}

proof fn found_providers_are_there(
    providers: Seq<GroupProviderView>,
    opened: Seq<OpenedPakView>,
    input_id: Seq<char>,
    at: int,
)
    requires
        0 <= at,
    ensures
        provider_with(providers, opened, input_id, at) matches Some(found) ==> 0 <= found
            < providers.len(),
    decreases providers.len() - at,
{
    if at < providers.len() {
        found_providers_are_there(providers, opened, input_id, at + 1);
    }
}

proof fn preferred_providers_are_there(
    ids: Seq<Seq<char>>,
    providers: Seq<GroupProviderView>,
    opened: Seq<OpenedPakView>,
)
    ensures
        preferred_from(ids, providers, opened) matches Some(found) ==> 0 <= found < providers.len(),
    decreases ids.len(),
{
    if ids.len() > 0 {
        found_providers_are_there(providers, opened, ids[0], 0);
        preferred_providers_are_there(ids.skip(1), providers, opened);
    }
}

proof fn donors_are_providers(
    context: OutputContextView,
    asset: AssetPlanView,
    providers: Seq<GroupProviderView>,
)
    requires
        providers.len() > 0,
    ensures
        package_donor(context, asset, providers) matches Ok(donor) ==> providers.contains(donor),
{
    preferred_providers_are_there(asset.donor_input_ids, providers, context.opened);
    match asset_conflict(context.plan, asset) {
        Ok(conflict) => {
            match selected_input(conflict, context.resolutions.choices) {
                Ok(input_id) => {
                    found_providers_are_there(providers, context.opened, input_id, 0);
                },
                Err(_) => {},
            }
        },
        Err(_) => {},
    }
    assert(providers.contains(providers[0]));
}

/// The output has all files of one provider of a list.
pub open spec fn one_is_written(
    entries: Seq<PlacedEntryView>,
    providers: Seq<GroupProviderView>,
) -> bool {
    exists|d: int|
        0 <= d < providers.len() && all_written(
            entries,
            (#[trigger] providers[d]).group.components.paths(),
        )
}

/// What is staged for a job.
pub open spec fn output_context(
    found: AnalysisView,
    resolutions: ResolutionSetView,
    opened: Seq<OpenedPakView>,
    carrier: int,
    supplies: Seq<DatabaseSupply>,
) -> OutputContextView {
    OutputContextView {
        plan: found.plan,
        resolutions,
        opened,
        packages: package_table(opened),
        loose: loose_table(opened),
        databases: found.databases,
        carrier_index: carrier as usize,
        supplies,
    }
}

proof fn carriers_are_there(parsed: Seq<ParsedDbProviderView>, carrier_index: usize, at: int)
    requires
        0 <= at,
        parsed.len() > 0,
    ensures
        0 <= carrier_from(parsed, carrier_index, at) < parsed.len(),
    decreases parsed.len() - at,
{
    if at < parsed.len() {
        carriers_are_there(parsed, carrier_index, at + 1);
    }
}

proof fn pairs_are_two_files(group: PackageGroupView)
    requires
        is_database_pair(group),
    ensures
        group.components.paths() == seq![group.components.uasset->0, group.components.uexp->0],
{
    assert(group.components.paths() =~= seq![
        group.components.uasset->0,
        group.components.uexp->0,
    ]);
}

proof fn staged_packages_have_a_provider(
    state: StagedView,
    context: OutputContextView,
    asset: AssetPlanView,
    list: Seq<GroupProviderView>,
)
    requires
        list.len() > 0,
        get(context.packages, folded(asset.virtual_path)) == Some(list),
        asset.action == AssetActionKind::MergeDatabase ==> database_candidate(list) && (get(
            context.databases,
            folded(asset.virtual_path),
        ) matches Some(parsed) && read_from(parsed, list)),
    ensures
        with_asset(state, context, asset) matches Ok(next) ==> exists|d: int|
            0 <= d < list.len() && has_paths(
                next.entries,
                (#[trigger] list[d]).group.components.paths(),
            ),
{
    reveal(with_asset);
    match with_asset(state, context, asset) {
        Err(_) => {},
        Ok(next) => {
            if asset.action == AssetActionKind::MergeDatabase {
                let parsed = get(context.databases, folded(asset.virtual_path))->0;
                let d = carrier_from(parsed, context.carrier_index, 0);
                carriers_are_there(parsed, context.carrier_index, 0);
                assert(parsed[d].group == list[d].group);
                pairs_are_two_files(list[d].group);
                let paths = list[d].group.components.paths();
                let count = state.entries.len() as int;
                assert(next.entries[count].path == paths[0]);
                assert(next.entries[count + 1].path == paths[1]);
                assert forall|i: int| 0 <= i < paths.len() implies has_path(
                    next.entries,
                    #[trigger] paths[i],
                ) by {
                    assert(next.entries[count + i].path == paths[i]);
                }
                assert(has_paths(next.entries, list[d].group.components.paths()));
            } else {
                donors_are_providers(context, asset, list);
                let donor = package_donor(context, asset, list)->Ok_0;
                let d = choose|d: int| 0 <= d < list.len() && list[d] == donor;
                packages_bring_all_files(
                    state.entries,
                    context.opened[donor.input_index as int],
                    donor.input_index,
                    donor.group.components.paths(),
                );
                assert(has_paths(next.entries, list[d].group.components.paths()));
            }
        },
    }
}

/// No package of an input is lost: of the inputs that provide it, one has all its
/// files in the output, whatever was chosen.
pub proof fn no_package_is_lost(
    request: AnalysisRequestView,
    opened: Seq<OpenedPakView>,
    detection: ProfileDetectionView,
    readings: Seq<Vec<Reading>>,
    steps_per_unit: int,
    resolutions: ResolutionSetView,
    supplies: Seq<DatabaseSupply>,
    input: int,
    at: int,
)
    requires
        opened.len() <= usize::MAX,
        0 <= input < opened.len(),
        0 <= at < opened[input].canonical_packages.packages.len(),
    ensures
        analysis_of(request, opened, detection, readings, steps_per_unit) matches Ok(found) ==> (
        prepared_output(found.plan, resolutions, opened, found.databases, supplies) matches Ok(
            prepared,
        ) ==> (get(
            package_table(opened),
            folded(opened[input].canonical_packages.packages[at].base_path),
        ) matches Some(providers) && providers.contains(
            GroupProviderView {
                input_index: input as usize,
                group: opened[input].canonical_packages.packages[at],
            },
        ) && one_is_written(prepared.entries, providers))),
{
    let group = opened[input].canonical_packages.packages[at];
    let key = folded(group.base_path);
    let table = package_table(opened);
    tables_are_named(opened);
    assert(listed_under(
        table,
        key,
        GroupProviderView { input_index: input as usize, group },
    ));
    let list = get(table, key)->0;
    slot_parts(table, key);
    let u = slot(table, key);
    assert(units_of(opened)[u] == AnalysisUnitView::Package(list));
    assert(package_name()(table[u].1[0]) == table[u].0);
    every_unit_is_planned(request, opened, detection, readings, steps_per_unit, u);
    match analysis_of(request, opened, detection, readings, steps_per_unit) {
        Err(_) => {},
        Ok(found) => {
            match prepared_output(found.plan, resolutions, opened, found.databases, supplies) {
                Err(_) => {},
                Ok(prepared) => {
                    let carrier = input_with_id(opened, found.plan.carrier_input_id, 0)->0;
                    let context = output_context(found, resolutions, opened, carrier, supplies);
                    let asset = choose|asset: AssetPlanView| #[trigger]
                        planned(found, units_of(opened)[u], asset);
                    let a = choose|a: int|
                        0 <= a < found.plan.assets.len() && found.plan.assets[a] == asset;
                    each_asset_is_staged(nothing_staged(), context, found.plan.assets, a);
                    let staged = with_assets(nothing_staged(), context, found.plan.assets)->Ok_0;
                    let step = choose|step: StagedView| #[trigger]
                        staged_on_the_way(step, context, asset, staged.entries);
                    staged_packages_have_a_provider(step, context, asset, list);
                    let next = with_asset(step, context, asset)->Ok_0;
                    going_on_keeps_paths(staged.entries, next.entries);
                    staged_files_are_written(opened, staged, opened[carrier].canonical_mount_point);
                    let d = choose|d: int|
                        0 <= d < list.len() && has_paths(
                            next.entries,
                            (#[trigger] list[d]).group.components.paths(),
                        );
                    let paths = list[d].group.components.paths();
                    assert forall|i: int| 0 <= i < paths.len() implies is_written(
                        prepared.entries,
                        #[trigger] paths[i],
                    ) by {
                        assert(has_path(next.entries, paths[i]));
                        assert(has_path(staged.entries, paths[i]));
                    }
                    assert(all_written(prepared.entries, paths));
                },
            }
        },
    }
}

/// The output has a file with a path, letter case aside.
pub open spec fn is_written_somehow(entries: Seq<PlacedEntryView>, path: Seq<char>) -> bool {
    exists|i: int|
        0 <= i < entries.len() && folded((#[trigger] entries[i]).entry.path) == folded(path)
}

/// No loose file of an input is lost, unless it bears the name of a package: the
/// output has a file with its path.
pub proof fn no_loose_file_is_lost(
    request: AnalysisRequestView,
    opened: Seq<OpenedPakView>,
    detection: ProfileDetectionView,
    readings: Seq<Vec<Reading>>,
    steps_per_unit: int,
    resolutions: ResolutionSetView,
    supplies: Seq<DatabaseSupply>,
    input: int,
    at: int,
)
    requires
        opened.len() <= usize::MAX,
        0 <= input < opened.len(),
        0 <= at < opened[input].canonical_packages.loose_entries.len(),
        get(
            package_table(opened),
            folded(opened[input].canonical_packages.loose_entries[at]),
        ) is None,
    ensures
        analysis_of(request, opened, detection, readings, steps_per_unit) matches Ok(found) ==> (
        prepared_output(found.plan, resolutions, opened, found.databases, supplies) matches Ok(
            prepared,
        ) ==> is_written_somehow(
            prepared.entries,
            opened[input].canonical_packages.loose_entries[at],
        )),
{
    let path = opened[input].canonical_packages.loose_entries[at];
    let key = folded(path);
    let table = loose_table(opened);
    tables_are_named(opened);
    assert(listed_under(table, key, LooseProviderView { input_index: input as usize, path }));
    let list = get(table, key)->0;
    slot_parts(table, key);
    let u = package_table(opened).len() + slot(table, key);
    assert(units_of(opened)[u] == AnalysisUnitView::Loose(list));
    assert(loose_name()(table[slot(table, key)].1[0]) == table[slot(table, key)].0);
    every_unit_is_planned(request, opened, detection, readings, steps_per_unit, u);
    match analysis_of(request, opened, detection, readings, steps_per_unit) {
        Err(_) => {},
        Ok(found) => {
            match prepared_output(found.plan, resolutions, opened, found.databases, supplies) {
                Err(_) => {},
                Ok(prepared) => {
                    let carrier = input_with_id(opened, found.plan.carrier_input_id, 0)->0;
                    let context = output_context(found, resolutions, opened, carrier, supplies);
                    let asset = choose|asset: AssetPlanView| #[trigger]
                        planned(found, units_of(opened)[u], asset);
                    let a = choose|a: int|
                        0 <= a < found.plan.assets.len() && found.plan.assets[a] == asset;
                    each_asset_is_staged(nothing_staged(), context, found.plan.assets, a);
                    let staged = with_assets(nothing_staged(), context, found.plan.assets)->Ok_0;
                    let step = choose|step: StagedView| #[trigger]
                        staged_on_the_way(step, context, asset, staged.entries);
                    reveal(with_asset);
                    let next = with_asset(step, context, asset)->Ok_0;
                    let donor = loose_donor(context, asset, list)->Ok_0;
                    loose_donors_bear_the_name(context, asset, list, key);
                    assert(next.entries[step.entries.len() as int].path == donor.path);
                    assert(has_path(next.entries, donor.path));
                    going_on_keeps_paths(staged.entries, next.entries);
                    staged_files_are_written(opened, staged, opened[carrier].canonical_mount_point);
                    assert(is_written(prepared.entries, donor.path));
                },
            }
        },
    }
}

proof fn found_files_are_there(
    providers: Seq<LooseProviderView>,
    opened: Seq<OpenedPakView>,
    input_id: Seq<char>,
    at: int,
)
    requires
        0 <= at,
    ensures
        loose_with(providers, opened, input_id, at) matches Some(found) ==> 0 <= found
            < providers.len(),
    decreases providers.len() - at,
{
    if at < providers.len() {
        found_files_are_there(providers, opened, input_id, at + 1);
    }
}

proof fn loose_donors_bear_the_name(
    context: OutputContextView,
    asset: AssetPlanView,
    providers: Seq<LooseProviderView>,
    key: Seq<char>,
)
    requires
        providers.len() > 0,
        forall|i: int|
            0 <= i < providers.len() ==> loose_name()(#[trigger] providers[i]) == key,
    ensures
        loose_donor(context, asset, providers) matches Ok(donor) ==> folded(
            donor.path,
        ) == key,
{
    assert(loose_name()(providers[0]) == key);
    match asset_conflict(context.plan, asset) {
        Ok(conflict) => {
            match selected_input(conflict, context.resolutions.choices) {
                Ok(input_id) => {
                    found_files_are_there(providers, context.opened, input_id, 0);
                    match loose_with(providers, context.opened, input_id, 0) {
                        Some(found) => {
                            assert(loose_name()(providers[found]) == key);
                        },
                        None => {},
                    }
                },
                Err(_) => {},
            }
        },
        Err(_) => {},
    }
}

} // verus!
