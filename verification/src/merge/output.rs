//! The files of a merged Pak: from where each of them comes, and in which order
//! they are written.
use std::collections::BTreeMap;

use vstd::prelude::*;
use vstd::slice::slice_to_vec;

use super::analyze::{add_capped, capped_sum, databases_usable, table_usable, ParsedProviders};
use super::assembly::{build_merged_database, merged_database, BuiltDatabaseView, OutputRow};
use super::audit::{PendingAuditView, PendingRawPreservationAudit};
use super::database::{provider_well, ParsedDbProviderView};
use super::error::{in_merge, invalid_request, seen, unverified, MergeError, MergeErrorView, Outcome, Result};
use super::estimate::{
    blocks_hold_bytes, ensure_output_disk_space, layout_views, output_room, work_room, BlockLayout,
};
use super::ids::{folded, sort_key};
use super::opened::{all_well_formed, OpenedPak, OpenedPakView};
use super::providers::{
    archive_entry_path, archive_path, collect_providers, loose_from, packages_from, usable_groups,
    usable_loose, GroupProvider, GroupProviderView, GroupProviders, LooseProvider,
    LooseProviderView, LooseProviders,
};
use super::resolve::{
    asset_conflict, asset_donor, conflict_for_asset, donor_for_asset, provider_by_input_id,
    provider_with, selected_input, selected_input_id, selected_provider,
};
use super::types::{
    AssetActionKind, AssetPlan, AssetPlanView, ConflictView, MergePlan, MergePlanView,
    MergeProgress,
    MergeProgressStage, MergeProgressView, ResolutionSet, ResolutionSetView,
};
use super::units::{
    groups_table_usable, loose_from_usable, loose_table_usable, packages_from_usable,
};
use super::verify::{merged_count, merged_count_of_first};
use crate::digest::sha256_of;
use crate::lists::{views, views_push, Duplicate};
use crate::ordered::{
    ascending, get, put, put_keeps_order, put_then_get, slot, slot_parts, values, OrderedMap,
};
use crate::pak::access::{mapped_bytes, place_of, MAX_IN_MEMORY_ENTRY_BYTES};
use crate::pak::error::{PakError, PakErrorView};
use crate::pak::write::{
    digest_views, prepare_write, source_digests, write_plan, write_views, OutputCompression,
    PakWriteEntry, PakWriteEntryView, PakWriteProgress, WriteOrder, WriteOrderView, WritePlan,
};
use crate::sorting::{pair_views, sort_keyed, sorted, take_values};
use crate::text::{cat2, cat4, clone_text, hex_encode, same_text, text_view, texts, texts_push};

verus! {

/// From where a file of the output comes.
#[derive(Debug)]
pub enum OutputSource {
    /// A file of an input, under its path there.
    Pak { input_index: usize, path: String },
    /// Bytes that the merge made.
    Built(Vec<u8>),
}

#[verifier::ext_equal]
pub enum OutputSourceView {
    Pak { input_index: usize, path: Seq<char> },
    Built(Seq<u8>),
}

impl View for OutputSource {
    type V = OutputSourceView;

    open spec fn view(&self) -> OutputSourceView {
        match *self {
            OutputSource::Pak { input_index, path } => OutputSourceView::Pak {
                input_index,
                path: path@,
            },
            OutputSource::Built(bytes) => OutputSourceView::Built(bytes@),
        }
    }
}

impl Duplicate for OutputSource {
    fn copy(&self) -> (result: Self) {
        match self {
            OutputSource::Pak { input_index, path } => OutputSource::Pak {
                input_index: *input_index,
                path: path.clone(),
            },
            OutputSource::Built(bytes) => OutputSource::Built(slice_to_vec(bytes.as_slice())),
        }
    }
}

/// A file of the output.
#[derive(Debug)]
pub struct OutputEntry {
    pub path: String,
    pub source: OutputSource,
}

#[verifier::ext_equal]
pub struct OutputEntryView {
    pub path: Seq<char>,
    pub source: OutputSourceView,
}

impl View for OutputEntry {
    type V = OutputEntryView;

    open spec fn view(&self) -> OutputEntryView {
        OutputEntryView { path: self.path@, source: self.source@ }
    }
}

impl Duplicate for OutputEntry {
    fn copy(&self) -> (result: Self) {
        OutputEntry { path: self.path.clone(), source: self.source.copy() }
    }
}

/// What stands outside this library of one merged database.
#[derive(Debug)]
pub struct DatabaseSupply {
    /// The reader's header for the list of rows, or its message.
    pub header: std::result::Result<Vec<u8>, String>,
    pub outputs: Vec<OutputRow>,
}

/// What the files of an output are taken from.
pub struct OutputContext<'b, 'a> {
    pub plan: &'b MergePlan,
    pub resolutions: &'b ResolutionSet,
    pub opened: &'b Vec<OpenedPak<'a>>,
    pub packages: &'b OrderedMap<GroupProviders>,
    pub loose: &'b OrderedMap<LooseProviders>,
    pub databases: &'b OrderedMap<ParsedProviders>,
    pub carrier_index: usize,
    pub supplies: &'b Vec<DatabaseSupply>,
}

#[verifier::ext_equal]
pub struct OutputContextView {
    pub plan: MergePlanView,
    pub resolutions: ResolutionSetView,
    pub opened: Seq<OpenedPakView>,
    pub packages: Seq<(Seq<char>, Seq<GroupProviderView>)>,
    pub loose: Seq<(Seq<char>, Seq<LooseProviderView>)>,
    pub databases: Seq<(Seq<char>, Seq<ParsedDbProviderView>)>,
    pub carrier_index: usize,
    pub supplies: Seq<DatabaseSupply>,
}

impl<'b, 'a> View for OutputContext<'b, 'a> {
    type V = OutputContextView;

    open spec fn view(&self) -> OutputContextView {
        OutputContextView {
            plan: self.plan@,
            resolutions: self.resolutions@,
            opened: views(self.opened@),
            packages: self.packages@,
            loose: self.loose@,
            databases: self.databases@,
            carrier_index: self.carrier_index,
            supplies: self.supplies@,
        }
    }
}

impl<'b, 'a> OutputContext<'b, 'a> {
    pub open spec fn well_formed(&self) -> bool {
        &&& self.resolutions.choices.well_formed()
        &&& all_well_formed(self.opened@)
        &&& self.packages.well_formed()
        &&& self.loose.well_formed()
        &&& self.databases.well_formed()
        &&& groups_table_usable(self.packages@, self.opened@.len())
        &&& loose_table_usable(self.loose@, self.opened@.len())
        &&& table_usable(self.databases@, self.opened@.len())
    }
}

/// A file names an input that is there.
pub open spec fn source_known(entry: OutputEntryView, inputs: nat) -> bool {
    entry.source matches OutputSourceView::Pak { input_index, path } ==> input_index < inputs
}

/// The files name inputs that are there.
pub open spec fn sources_known(entries: Seq<OutputEntryView>, inputs: nat) -> bool {
    forall|i: int| 0 <= i < entries.len() ==> source_known(#[trigger] entries[i], inputs)
}

proof fn push_known(entries: Seq<OutputEntryView>, entry: OutputEntryView, inputs: nat)
    requires
        sources_known(entries, inputs),
        source_known(entry, inputs),
    ensures
        sources_known(entries.push(entry), inputs),
{
    let after = entries.push(entry);
    assert forall|i: int| 0 <= i < after.len() implies source_known(#[trigger] after[i], inputs) by {
        if i < entries.len() {
            assert(after[i] == entries[i]);
        }
    }
}

/// The files of a package, added to those known.
pub open spec fn package_sources(
    done: Seq<OutputEntryView>,
    input: OpenedPakView,
    input_index: usize,
    paths: Seq<Seq<char>>,
) -> Outcome<Seq<OutputEntryView>>
    decreases paths.len(),
{
    if paths.len() == 0 {
        Ok(done)
    } else {
        match archive_path(input, paths[0]) {
            Err(error) => Err(error),
            Ok(path) => package_sources(
                done.push(
                    OutputEntryView {
                        path: paths[0],
                        source: OutputSourceView::Pak { input_index, path },
                    },
                ),
                input,
                input_index,
                paths.skip(1),
            ),
        }
    }
}

/// The outcome of a step that adds files.
pub open spec fn entries_after(
    result: Result<()>,
    after: Seq<OutputEntryView>,
    wanted: Outcome<Seq<OutputEntryView>>,
) -> bool {
    match (result, wanted) {
        (Ok(_), Ok(expected)) => after == expected,
        (Err(error), Err(expected)) => error@ == expected,
        _ => false,
    }
}

#[verifier::loop_isolation(false)]
pub fn append_package_sources(
    entries: &mut Vec<OutputEntry>,
    donor: &GroupProvider,
    opened: &Vec<OpenedPak>,
) -> (result: Result<()>)
    requires
        all_well_formed(opened@),
        donor.input_index < opened@.len(),
        sources_known(views(old(entries)@), opened@.len()),
    ensures
        entries_after(
            result,
            views(final(entries)@),
            package_sources(
                views(old(entries)@),
                views(opened@)[donor.input_index as int],
                donor.input_index,
                donor@.group.components.paths(),
            ),
        ),
        sources_known(views(final(entries)@), opened@.len()),
{
    let paths = donor.group.components.paths();
    let input = &opened[donor.input_index];
    assert(views(opened@)[donor.input_index as int] == input@);
    let ghost start = views(entries@);
    let ghost all = texts(paths@);
    let mut at: usize = 0;
    assert(all.skip(0) =~= all);
    while at < paths.len()
        invariant
            at <= paths@.len(),
            sources_known(views(entries@), opened@.len()),
            package_sources(start, input@, donor.input_index, all) == package_sources(
                views(entries@),
                input@,
                donor.input_index,
                all.skip(at as int),
            ),
        decreases paths.len() - at,
    {
        proof {
            assert(all.skip(at as int)[0] == paths@[at as int]@);
            assert(all.skip(at as int).skip(1) =~= all.skip(at as int + 1));
        }
        let path = match archive_entry_path(input, paths[at].as_str()) {
            Ok(path) => path,
            Err(error) => {
                return Err(error);
            },
        };
        let entry = OutputEntry {
            path: paths[at].clone(),
            source: OutputSource::Pak { input_index: donor.input_index, path },
        };
        proof {
            views_push(entries@, entry);
            push_known(views(entries@), entry@, opened@.len());
        }
        entries.push(entry);
        at += 1;
    }
    Ok(())
}

/// What the assets so far add up to.
#[verifier::ext_equal]
pub struct StagedView {
    pub entries: Seq<OutputEntryView>,
    pub preserved: u64,
    pub replaced: u64,
    pub audits: Seq<PendingAuditView>,
    pub told: Seq<MergeProgressView>,
}

/// What the assets so far add up to.
#[derive(Debug)]
pub struct Staged {
    pub entries: Vec<OutputEntry>,
    pub preserved: u64,
    pub replaced: u64,
    pub audits: Vec<PendingRawPreservationAudit>,
    /// What was told while the databases were merged, in the order of the plan.
    pub told: Vec<MergeProgress>,
}

impl View for Staged {
    type V = StagedView;

    open spec fn view(&self) -> StagedView {
        StagedView {
            entries: views(self.entries@),
            preserved: self.preserved,
            replaced: self.replaced,
            audits: views(self.audits@),
            told: views(self.told@),
        }
    }
}

/// The state with other files.
pub open spec fn staged_entries(state: StagedView, entries: Outcome<Seq<OutputEntryView>>) -> Outcome<
    StagedView,
> {
    match entries {
        Ok(entries) => Ok(StagedView { entries, ..state }),
        Err(error) => Err(error),
    }
}

/// The provider from which a package is taken that is not merged.
pub open spec fn package_donor(
    context: OutputContextView,
    asset: AssetPlanView,
    providers: Seq<GroupProviderView>,
) -> Outcome<GroupProviderView> {
    match asset.action {
        AssetActionKind::Copy | AssetActionKind::Deduplicate => asset_donor(
            asset,
            providers,
            context.opened,
        ),
        _ => match asset_conflict(context.plan, asset) {
            Err(error) => Err(error),
            Ok(conflict) => match selected_input(conflict, context.resolutions.choices) {
                Err(error) => Err(error),
                Ok(input_id) => selected_provider(providers, context.opened, input_id),
            },
        },
    }
}

/// The state with a merged database.
pub open spec fn with_database(
    state: StagedView,
    context: OutputContextView,
    asset: AssetPlanView,
) -> Outcome<StagedView> {
    match get(context.databases, folded(asset.virtual_path)) {
        None => Err(MergeErrorView::InputChanged(asset.virtual_path)),
        Some(parsed) => if state.audits.len() >= context.supplies.len() {
            Err(MergeErrorView::Cancelled)
        } else {
            match merged_database(
                context.plan,
                context.resolutions,
                context.opened,
                parsed,
                context.carrier_index,
                context.supplies[state.audits.len() as int].header,
                context.supplies[state.audits.len() as int].outputs@,
            ) {
                Err(error) => Err(error),
                Ok(built) => Ok(with_built(state, built)),
            }
        },
    }
}

pub open spec fn with_built(state: StagedView, built: BuiltDatabaseView) -> StagedView {
    StagedView {
        entries: state.entries.push(
            OutputEntryView {
                path: built.uasset_entry,
                source: OutputSourceView::Built(built.uasset),
            },
        ).push(
            OutputEntryView {
                path: built.uexp_entry,
                source: OutputSourceView::Built(built.uexp),
            },
        ),
        preserved: capped_sum(state.preserved, built.raw_preserved_nodes),
        replaced: capped_sum(state.replaced, built.raw_replaced_nodes),
        audits: state.audits.push(built.raw_audit),
        told: state.told + built.told,
    }
}

/// The first provider of a file from `at` on that is the input with an id.
pub open spec fn loose_with(
    providers: Seq<LooseProviderView>,
    opened: Seq<OpenedPakView>,
    input_id: Seq<char>,
    at: int,
) -> Option<int>
    decreases providers.len() - at,
{
    if at >= providers.len() {
        None
    } else if opened[providers[at].input_index as int].descriptor.id == input_id {
        Some(at)
    } else {
        loose_with(providers, opened, input_id, at + 1)
    }
}

/// The provider from which a loose file is taken.
pub open spec fn loose_donor(
    context: OutputContextView,
    asset: AssetPlanView,
    providers: Seq<LooseProviderView>,
) -> Outcome<LooseProviderView> {
    match asset.action {
        AssetActionKind::Copy | AssetActionKind::Deduplicate => Ok(providers[0]),
        AssetActionKind::MergeDatabase => Err(
            MergeErrorView::StandaloneDatabase(asset.virtual_path),
        ),
        _ => match asset_conflict(context.plan, asset) {
            Err(error) => Err(error),
            Ok(conflict) => match selected_input(conflict, context.resolutions.choices) {
                Err(error) => Err(error),
                Ok(selected) => match loose_with(providers, context.opened, selected, 0) {
                    Some(at) => Ok(providers[at]),
                    None => Err(
                        MergeErrorView::InvalidResolution(
                            "the selected Pak "@ + selected + " does not contain file "@
                                + asset.virtual_path,
                        ),
                    ),
                },
            },
        },
    }
}

/// The state with the files of an asset.
#[verifier::opaque]
pub open spec fn with_asset(
    state: StagedView,
    context: OutputContextView,
    asset: AssetPlanView,
) -> Outcome<StagedView> {
    let key = folded(asset.virtual_path);
    match get(context.packages, key) {
        Some(providers) => if asset.action == AssetActionKind::MergeDatabase {
            with_database(state, context, asset)
        } else {
            match package_donor(context, asset, providers) {
                Err(error) => Err(error),
                Ok(donor) => staged_entries(
                    state,
                    package_sources(
                        state.entries,
                        context.opened[donor.input_index as int],
                        donor.input_index,
                        donor.group.components.paths(),
                    ),
                ),
            }
        },
        None => match get(context.loose, key) {
            Some(providers) => match loose_donor(context, asset, providers) {
                Err(error) => Err(error),
                Ok(donor) => match archive_path(
                    context.opened[donor.input_index as int],
                    donor.path,
                ) {
                    Err(error) => Err(error),
                    Ok(path) => Ok(
                        StagedView {
                            entries: state.entries.push(
                                OutputEntryView {
                                    path: donor.path,
                                    source: OutputSourceView::Pak {
                                        input_index: donor.input_index,
                                        path,
                                    },
                                },
                            ),
                            ..state
                        },
                    ),
                },
            },
            None => Err(MergeErrorView::InputChanged(asset.virtual_path)),
        },
    }
}

/// The state with the files of all assets.
pub open spec fn with_assets(
    state: StagedView,
    context: OutputContextView,
    assets: Seq<AssetPlanView>,
) -> Outcome<StagedView>
    decreases assets.len(),
{
    if assets.len() == 0 {
        Ok(state)
    } else {
        match with_asset(state, context, assets[0]) {
            Err(error) => Err(error),
            Ok(next) => with_assets(next, context, assets.skip(1)),
        }
    }
}

fn choose_package_donor<'b>(context: &OutputContext, asset: &AssetPlan, providers: &'b Vec<GroupProvider>) -> (result:
    Result<&'b GroupProvider>)
    requires
        context.well_formed(),
        forall|i: int|
            0 <= i < providers@.len() ==> (#[trigger] providers@[i]).input_index
                < context.opened@.len(),
    ensures
        match (result, package_donor(context@, asset@, views(providers@))) {
            (Ok(provider), Ok(wanted)) => provider@ == wanted && provider.input_index
                < context.opened@.len(),
            (Err(error), Err(wanted)) => error@ == wanted,
            _ => false,
        },
{
    match asset.action {
        AssetActionKind::Copy | AssetActionKind::Deduplicate => donor_for_asset(
            asset,
            providers,
            context.opened,
        ),
        _ => {
            let conflict = match conflict_for_asset(context.plan, asset) {
                Ok(conflict) => conflict,
                Err(error) => {
                    return Err(error);
                },
            };
            let input_id = match selected_input_id(conflict, context.resolutions) {
                Ok(input_id) => input_id,
                Err(error) => {
                    return Err(error);
                },
            };
            provider_by_input_id(providers, context.opened, input_id.as_str())
        },
    }
}

fn add_database(state: &mut Staged, context: &OutputContext, asset: &AssetPlan) -> (result: Result<()>)
    requires
        context.well_formed(),
        sources_known(views(old(state).entries@), context.opened@.len()),
    ensures
        sources_known(views(final(state).entries@), context.opened@.len()),
        match (result, with_database(old(state)@, context@, asset@)) {
            (Ok(_), Ok(wanted)) => final(state)@ == wanted,
            (Err(error), Err(wanted)) => error@ == wanted,
            _ => false,
        },
{
    let key = sort_key(asset.virtual_path.as_str());
    let place: usize = match context.databases.find(key.as_str()) {
        Some(place) => place,
        None => {
            return Err(MergeError::InputChanged(asset.virtual_path.clone()));
        },
    };
    let parsed = &context.databases.items[place].1.list;
    proof {
        assert(context.databases@[place as int].1 == views(parsed@));
        assert(databases_usable(views(parsed@), context.opened@.len()));
        assert forall|i: int| 0 <= i < parsed@.len() implies provider_well(
            (#[trigger] parsed@[i])@,
            context.opened@.len(),
        ) by {
            assert(views(parsed@)[i] == parsed@[i]@);
        }
        assert(views(parsed@).len() == parsed@.len());
        assert(views(state.audits@).len() == state.audits@.len());
    }
    let used: usize = state.audits.len();
    if used >= context.supplies.len() {
        return Err(MergeError::Cancelled);
    }
    let supply = &context.supplies[used];
    let built = match build_merged_database(
        context.plan,
        context.resolutions,
        context.opened,
        parsed,
        context.carrier_index,
        &supply.header,
        &supply.outputs,
    ) {
        Ok(built) => built,
        Err(error) => {
            return Err(error);
        },
    };
    let header = OutputEntry {
        path: built.uasset_entry,
        source: OutputSource::Built(built.uasset),
    };
    let payload = OutputEntry { path: built.uexp_entry, source: OutputSource::Built(built.uexp) };
    proof {
        views_push(state.entries@, header);
        views_push(state.entries@.push(header), payload);
        push_known(views(state.entries@), header@, context.opened@.len());
        push_known(views(state.entries@.push(header)), payload@, context.opened@.len());
        views_push(state.audits@, built.raw_audit);
    }
    state.preserved = add_capped(state.preserved, built.raw_preserved_nodes);
    state.replaced = add_capped(state.replaced, built.raw_replaced_nodes);
    state.audits.push(built.raw_audit);
    let mut told = built.told;
    let ghost before = views(state.told@);
    let ghost more = views(told@);
    state.told.append(&mut told);
    assert(views(state.told@) =~= before + more);
    state.entries.push(header);
    state.entries.push(payload);
    Ok(())
}

fn find_loose(providers: &Vec<LooseProvider>, opened: &Vec<OpenedPak>, input_id: &str) -> (result: Option<
    usize,
>)
    requires
        forall|i: int|
            0 <= i < providers@.len() ==> (#[trigger] providers@[i]).input_index < opened@.len(),
    ensures
        match (result, loose_with(views(providers@), views(opened@), input_id@, 0)) {
            (Some(at), Some(wanted)) => at == wanted && at < providers@.len(),
            (None, None) => true,
            _ => false,
        },
{
    let ghost all = views(providers@);
    let ghost inputs = views(opened@);
    let mut at: usize = 0;
    while at < providers.len()
        invariant
            at <= providers@.len(),
            all == views(providers@),
            inputs == views(opened@),
            forall|i: int|
                0 <= i < providers@.len() ==> (#[trigger] providers@[i]).input_index < opened@.len(),
            loose_with(all, inputs, input_id@, 0) == loose_with(
                all,
                inputs,
                input_id@,
                at as int,
            ),
        decreases providers.len() - at,
    {
        let index: usize = providers[at].input_index;
        proof {
            assert(all[at as int] == providers@[at as int]@);
            assert(inputs[index as int] == opened@[index as int]@);
        }
        if same_text(opened[index].descriptor.id.as_str(), input_id) {
            return Some(at);
        }
        at += 1;
    }
    None
}

fn choose_loose_donor<'b>(context: &OutputContext, asset: &AssetPlan, providers: &'b Vec<LooseProvider>) -> (result:
    Result<&'b LooseProvider>)
    requires
        context.well_formed(),
        providers@.len() > 0,
        forall|i: int|
            0 <= i < providers@.len() ==> (#[trigger] providers@[i]).input_index
                < context.opened@.len(),
    ensures
        match (result, loose_donor(context@, asset@, views(providers@))) {
            (Ok(provider), Ok(wanted)) => provider@ == wanted && provider.input_index
                < context.opened@.len(),
            (Err(error), Err(wanted)) => error@ == wanted,
            _ => false,
        },
{
    match asset.action {
        AssetActionKind::Copy | AssetActionKind::Deduplicate => {
            assert(views(providers@)[0] == providers@[0]@);
            Ok(&providers[0])
        },
        AssetActionKind::MergeDatabase => Err(
            MergeError::StandaloneDatabase(asset.virtual_path.clone()),
        ),
        _ => {
            let conflict = match conflict_for_asset(context.plan, asset) {
                Ok(conflict) => conflict,
                Err(error) => {
                    return Err(error);
                },
            };
            let selected = match selected_input_id(conflict, context.resolutions) {
                Ok(selected) => selected,
                Err(error) => {
                    return Err(error);
                },
            };
            match find_loose(providers, context.opened, selected.as_str()) {
                Some(at) => {
                    assert(views(providers@)[at as int] == providers@[at as int]@);
                    Ok(&providers[at])
                },
                None => Err(
                    MergeError::InvalidResolution(
                        cat4(
                            "the selected Pak ",
                            selected.as_str(),
                            " does not contain file ",
                            asset.virtual_path.as_str(),
                        ),
                    ),
                ),
            }
        },
    }
}

fn is_merged(action: AssetActionKind) -> (result: bool)
    ensures
        result == (action == AssetActionKind::MergeDatabase),
{
    match action {
        AssetActionKind::MergeDatabase => true,
        _ => false,
    }
}

fn add_asset(state: &mut Staged, context: &OutputContext, asset: &AssetPlan) -> (result: Result<()>)
    requires
        context.well_formed(),
        sources_known(views(old(state).entries@), context.opened@.len()),
    ensures
        sources_known(views(final(state).entries@), context.opened@.len()),
        match (result, with_asset(old(state)@, context@, asset@)) {
            (Ok(_), Ok(wanted)) => final(state)@ == wanted,
            (Err(error), Err(wanted)) => error@ == wanted,
            _ => false,
        },
{
    proof {
        reveal(with_asset);
    }
    let key = sort_key(asset.virtual_path.as_str());
    match context.packages.find(key.as_str()) {
        Some(place) => {
            if is_merged(asset.action) {
                return add_database(state, context, asset);
            }
            let providers = &context.packages.items[place].1.list;
            proof {
                assert(context.packages@[place as int].1 == views(providers@));
                assert(usable_groups(views(providers@), context.opened@.len()));
                assert forall|i: int| 0 <= i < providers@.len() implies (
                #[trigger] providers@[i]).input_index < context.opened@.len() by {
                    assert(views(providers@)[i] == providers@[i]@);
                }
            }
            let donor = match choose_package_donor(context, asset, providers) {
                Ok(donor) => donor,
                Err(error) => {
                    return Err(error);
                },
            };
            append_package_sources(&mut state.entries, donor, context.opened)
        },
        None => match context.loose.find(key.as_str()) {
            Some(place) => {
                let providers = &context.loose.items[place].1.list;
                proof {
                    assert(context.loose@[place as int].1 == views(providers@));
                    assert(usable_loose(views(providers@), context.opened@.len()));
                    assert forall|i: int| 0 <= i < providers@.len() implies (
                    #[trigger] providers@[i]).input_index < context.opened@.len() by {
                        assert(views(providers@)[i] == providers@[i]@);
                    }
                    assert(views(providers@).len() == providers@.len());
                }
                let donor = match choose_loose_donor(context, asset, providers) {
                    Ok(donor) => donor,
                    Err(error) => {
                        return Err(error);
                    },
                };
                let input = &context.opened[donor.input_index];
                proof {
                    assert(context@.opened[donor.input_index as int] == input@);
                    assert(context.opened@[donor.input_index as int].well_formed());
                }
                let path = match archive_entry_path(input, donor.path.as_str()) {
                    Ok(path) => path,
                    Err(error) => {
                        return Err(error);
                    },
                };
                let entry = OutputEntry {
                    path: donor.path.clone(),
                    source: OutputSource::Pak { input_index: donor.input_index, path },
                };
                proof {
                    views_push(state.entries@, entry);
                    push_known(views(state.entries@), entry@, context.opened@.len());
                }
                state.entries.push(entry);
                Ok(())
            },
            None => Err(MergeError::InputChanged(asset.virtual_path.clone())),
        },
    }
}

pub open spec fn nothing_staged() -> StagedView {
    StagedView { entries: Seq::empty(), preserved: 0, replaced: 0, audits: Seq::empty(), told: Seq::empty() }
}

#[verifier::loop_isolation(false)]
fn stage_assets(context: &OutputContext) -> (result: Result<Staged>)
    requires
        context.well_formed(),
    ensures
        seen(result) == with_assets(nothing_staged(), context@, context@.plan.assets),
        result matches Ok(staged) ==> sources_known(
            views(staged.entries@),
            context.opened@.len(),
        ),
{
    let ghost all = context@.plan.assets;
    let mut state = Staged {
        entries: Vec::new(),
        preserved: 0,
        replaced: 0,
        audits: Vec::new(),
        told: Vec::new(),
    };
    let mut at: usize = 0;
    proof {
        assert(state@ =~= nothing_staged());
        assert(all.skip(0) =~= all);
    }
    while at < context.plan.assets.len()
        invariant
            at <= context.plan.assets@.len(),
            sources_known(views(state.entries@), context.opened@.len()),
            with_assets(nothing_staged(), context@, all) == with_assets(
                state@,
                context@,
                all.skip(at as int),
            ),
        decreases context.plan.assets.len() - at,
    {
        proof {
            assert(all.skip(at as int)[0] == context.plan.assets@[at as int]@);
            assert(all.skip(at as int).skip(1) =~= all.skip(at as int + 1));
        }
        match add_asset(&mut state, context, &context.plan.assets[at]) {
            Ok(_) => {},
            Err(error) => {
                return Err(error);
            },
        }
        at += 1;
    }
    Ok(state)
}

pub open spec fn by_key(entries: Seq<OutputEntryView>) -> Seq<(Seq<char>, OutputEntryView)> {
    entries.map_values(|entry: OutputEntryView| (folded(entry.path), entry))
}

fn sort_entries(entries: &Vec<OutputEntry>) -> (result: Vec<OutputEntry>)
    ensures
        views(result@) == values(sorted(by_key(views(entries@)))),
{
    let ghost all = by_key(views(entries@));
    let mut items: Vec<(String, OutputEntry)> = Vec::new();
    let mut at: usize = 0;
    assert(pair_views(items@) =~= all.take(0));
    while at < entries.len()
        invariant
            at <= entries@.len(),
            all == by_key(views(entries@)),
            pair_views(items@) == all.take(at as int),
        decreases entries.len() - at,
    {
        let item = (sort_key(entries[at].path.as_str()), entries[at].copy());
        proof {
            assert(views(entries@)[at as int] == entries@[at as int]@);
            assert(all[at as int] == (item.0@, item.1@));
            assert(pair_views(items@.push(item)) =~= pair_views(items@).push((item.0@, item.1@)));
            assert(all.take(at as int + 1) =~= all.take(at as int).push(all[at as int]));
        }
        items.push(item);
        at += 1;
    }
    assert(all.take(at as int) =~= all);
    take_values(&sort_keyed(items))
}

/// Whether no two files have paths with one key.
pub open spec fn paths_unique(met: Seq<(Seq<char>, bool)>, entries: Seq<OutputEntryView>) -> Outcome<()>
    decreases entries.len(),
{
    if entries.len() == 0 {
        Ok(())
    } else if get(met, folded(entries[0].path)) is Some {
        unverified("duplicate output path: "@ + entries[0].path)
    } else {
        paths_unique(put(met, folded(entries[0].path), true), entries.skip(1))
    }
}

#[verifier::loop_isolation(false)]
pub fn ensure_unique_output_paths(entries: &Vec<OutputEntry>) -> (result: Result<()>)
    ensures
        seen(result) == paths_unique(Seq::empty(), views(entries@)),
{
    let ghost all = views(entries@);
    let mut met: OrderedMap<bool> = OrderedMap::new();
    let mut at: usize = 0;
    assert(all.skip(0) =~= all);
    while at < entries.len()
        invariant
            at <= entries@.len(),
            met.well_formed(),
            paths_unique(Seq::empty(), all) == paths_unique(met@, all.skip(at as int)),
        decreases entries.len() - at,
    {
        proof {
            assert(all.skip(at as int)[0] == entries@[at as int]@);
            assert(all.skip(at as int).skip(1) =~= all.skip(at as int + 1));
        }
        let key = sort_key(entries[at].path.as_str());
        if met.find(key.as_str()).is_some() {
            return Err(
                MergeError::Verification(
                    cat2("duplicate output path: ", entries[at].path.as_str()),
                ),
            );
        }
        met.insert(key, true);
        at += 1;
    }
    Ok(())
}

/// A file of the output, and which bytes of all files it takes.
#[derive(Debug)]
pub struct PlacedEntry {
    pub entry: OutputEntry,
    pub offset: u64,
    pub size: u64,
}

#[verifier::ext_equal]
pub struct PlacedEntryView {
    pub entry: OutputEntryView,
    pub offset: u64,
    pub size: u64,
}

impl View for PlacedEntry {
    type V = PlacedEntryView;

    open spec fn view(&self) -> PlacedEntryView {
        PlacedEntryView { entry: self.entry@, offset: self.offset, size: self.size }
    }
}

/// How many bytes a file of the output has.
pub open spec fn source_size(opened: Seq<OpenedPakView>, source: OutputSourceView) -> Outcome<int> {
    match source {
        OutputSourceView::Pak { input_index, path } => match in_merge(
            place_of(opened[input_index as int].archive, path),
        ) {
            Ok(place) => Ok(opened[input_index as int].archive.entries[place].1.size as int),
            Err(error) => Err(error),
        },
        OutputSourceView::Built(bytes) => Ok(bytes.len() as int),
    }
}

/// The files one after the other, from byte `total` on.
pub open spec fn placed_from(
    done: Seq<PlacedEntryView>,
    total: int,
    opened: Seq<OpenedPakView>,
    entries: Seq<OutputEntryView>,
) -> Outcome<(Seq<PlacedEntryView>, int)>
    decreases entries.len(),
{
    if entries.len() == 0 {
        Ok((done, total))
    } else {
        match source_size(opened, entries[0].source) {
            Err(error) => Err(error),
            Ok(size) => if total + size > u64::MAX {
                invalid_request("output size overflow"@)
            } else {
                placed_from(
                    done.push(
                        PlacedEntryView {
                            entry: entries[0],
                            offset: total as u64,
                            size: size as u64,
                        },
                    ),
                    total + size,
                    opened,
                    entries.skip(1),
                )
            },
        }
    }
}

fn size_of_source(opened: &Vec<OpenedPak>, source: &OutputSource) -> (result: Result<u64>)
    requires
        all_well_formed(opened@),
        source@ matches OutputSourceView::Pak { input_index, path } ==> input_index < opened@.len(),
    ensures
        match (result, source_size(views(opened@), source@)) {
            (Ok(size), Ok(wanted)) => size == wanted,
            (Err(error), Err(wanted)) => error@ == wanted,
            _ => false,
        },
{
    match source {
        OutputSource::Pak { input_index, path } => {
            let input = &opened[*input_index];
            assert(views(opened@)[*input_index as int] == input@);
            match input.archive.entry_size(path.as_str()) {
                Ok(size) => Ok(size),
                Err(error) => Err(MergeError::Pak(error)),
            }
        },
        OutputSource::Built(bytes) => Ok(bytes.len() as u64),
    }
}

/// The outcome of a step that places files.
pub open spec fn same_placed(
    result: Result<(Vec<PlacedEntry>, u64)>,
    wanted: Outcome<(Seq<PlacedEntryView>, int)>,
) -> bool {
    match (result, wanted) {
        (Ok(found), Ok(expected)) => views(found.0@) == expected.0 && found.1 == expected.1,
        (Err(error), Err(expected)) => error@ == expected,
        _ => false,
    }
}

#[verifier::loop_isolation(false)]
fn place_entries(opened: &Vec<OpenedPak>, entries: &Vec<OutputEntry>) -> (result: Result<
    (Vec<PlacedEntry>, u64),
>)
    requires
        all_well_formed(opened@),
        sources_known(views(entries@), opened@.len()),
    ensures
        same_placed(result, placed_from(Seq::empty(), 0, views(opened@), views(entries@))),
        result matches Ok(found) ==> forall|i: int|
            0 <= i < found.0@.len() ==> source_known(
                (#[trigger] found.0@[i]).entry@,
                opened@.len(),
            ),
{
    let ghost inputs = views(opened@);
    let ghost all = views(entries@);
    let mut placed: Vec<PlacedEntry> = Vec::new();
    let mut total: u64 = 0;
    let mut at: usize = 0;
    proof {
        assert(all.skip(0) =~= all);
        assert(views(placed@) =~= Seq::<PlacedEntryView>::empty());
    }
    while at < entries.len()
        invariant
            at <= entries@.len(),
            forall|i: int|
                0 <= i < placed@.len() ==> source_known(
                    (#[trigger] placed@[i]).entry@,
                    opened@.len(),
                ),
            placed_from(Seq::empty(), 0, inputs, all) == placed_from(
                views(placed@),
                total as int,
                inputs,
                all.skip(at as int),
            ),
        decreases entries.len() - at,
    {
        proof {
            assert(all[at as int] == entries@[at as int]@);
            assert(all.skip(at as int)[0] == entries@[at as int]@);
            assert(all.skip(at as int).skip(1) =~= all.skip(at as int + 1));
        }
        let size: u64 = match size_of_source(opened, &entries[at].source) {
            Ok(size) => size,
            Err(error) => {
                return Err(error);
            },
        };
        let next: u64 = match total.checked_add(size) {
            Some(next) => next,
            None => {
                return Err(MergeError::InvalidRequest("output size overflow".to_owned()));
            },
        };
        let one = PlacedEntry { entry: entries[at].copy(), offset: total, size };
        proof {
            views_push(placed@, one);
        }
        placed.push(one);
        total = next;
        at += 1;
    }
    Ok((placed, total))
}

/// What is written: the files in order, the base folder, and what is to be checked
/// once it is written.
#[derive(Debug)]
pub struct PreparedOutput {
    pub entries: Vec<PlacedEntry>,
    pub total_logical_bytes: u64,
    pub mount: String,
    pub preserved: u64,
    pub replaced: u64,
    pub audits: Vec<PendingRawPreservationAudit>,
    /// What was told while the databases were merged, in the order of the plan.
    pub told: Vec<MergeProgress>,
}

#[verifier::ext_equal]
pub struct PreparedOutputView {
    pub entries: Seq<PlacedEntryView>,
    pub total_logical_bytes: u64,
    pub mount: Seq<char>,
    pub preserved: u64,
    pub replaced: u64,
    pub audits: Seq<PendingAuditView>,
    pub told: Seq<MergeProgressView>,
}

impl View for PreparedOutput {
    type V = PreparedOutputView;

    open spec fn view(&self) -> PreparedOutputView {
        PreparedOutputView {
            entries: views(self.entries@),
            total_logical_bytes: self.total_logical_bytes,
            mount: self.mount@,
            preserved: self.preserved,
            replaced: self.replaced,
            audits: views(self.audits@),
            told: views(self.told@),
        }
    }
}

impl PreparedOutput {
    /// The files name inputs that are there.
    pub open spec fn sources_known(&self, inputs: nat) -> bool {
        forall|i: int|
            0 <= i < self.entries@.len() ==> source_known(
                (#[trigger] self.entries@[i]).entry@,
                inputs,
            )
    }
}

/// The first input with an id.
pub open spec fn input_with_id(opened: Seq<OpenedPakView>, id: Seq<char>, at: int) -> Option<int>
    decreases opened.len() - at,
{
    if at >= opened.len() {
        None
    } else if opened[at].descriptor.id == id {
        Some(at)
    } else {
        input_with_id(opened, id, at + 1)
    }
}

fn find_input(opened: &Vec<OpenedPak>, id: &str) -> (result: Option<usize>)
    ensures
        match (result, input_with_id(views(opened@), id@, 0)) {
            (Some(at), Some(wanted)) => at == wanted && at < opened@.len(),
            (None, None) => true,
            _ => false,
        },
{
    let ghost all = views(opened@);
    let mut at: usize = 0;
    while at < opened.len()
        invariant
            at <= opened@.len(),
            all == views(opened@),
            input_with_id(all, id@, 0) == input_with_id(all, id@, at as int),
        decreases opened.len() - at,
    {
        assert(all[at as int] == opened@[at as int]@);
        if same_text(opened[at].descriptor.id.as_str(), id) {
            return Some(at);
        }
        at += 1;
    }
    None
}

/// What is written for a settled plan.
pub open spec fn prepared_output(
    plan: MergePlanView,
    resolutions: ResolutionSetView,
    opened: Seq<OpenedPakView>,
    databases: Seq<(Seq<char>, Seq<ParsedDbProviderView>)>,
    supplies: Seq<DatabaseSupply>,
) -> Outcome<PreparedOutputView> {
    match input_with_id(opened, plan.carrier_input_id, 0) {
        None => invalid_request("The selected base Pak is no longer available."@),
        Some(carrier) => {
            let context = OutputContextView {
                plan,
                resolutions,
                opened,
                packages: packages_from(Seq::empty(), opened, 0),
                loose: loose_from(Seq::empty(), opened, 0),
                databases,
                carrier_index: carrier as usize,
                supplies,
            };
            match with_assets(nothing_staged(), context, plan.assets) {
                Err(error) => Err(error),
                Ok(staged) => ordered_output(
                    staged,
                    opened,
                    opened[carrier].canonical_mount_point,
                ),
            }
        },
    }
}

proof fn found_providers_have_the_id(
    providers: Seq<GroupProviderView>,
    opened: Seq<OpenedPakView>,
    input_id: Seq<char>,
    at: int,
)
    ensures
        provider_with(providers, opened, input_id, at) matches Some(found)
            ==> opened[providers[found].input_index as int].descriptor.id == input_id,
    decreases providers.len() - at,
{
    if at < providers.len() {
        found_providers_have_the_id(providers, opened, input_id, at + 1);
    }
}

proof fn found_files_have_the_id(
    providers: Seq<LooseProviderView>,
    opened: Seq<OpenedPakView>,
    input_id: Seq<char>,
    at: int,
)
    ensures
        loose_with(providers, opened, input_id, at) matches Some(found)
            ==> opened[providers[found].input_index as int].descriptor.id == input_id,
    decreases providers.len() - at,
{
    if at < providers.len() {
        found_files_have_the_id(providers, opened, input_id, at + 1);
    }
}

/// Files that are chosen as a whole come from the chosen Pak.
pub proof fn chosen_files_come_from_the_chosen_pak(
    context: OutputContextView,
    asset: AssetPlanView,
    packages: Seq<GroupProviderView>,
    files: Seq<LooseProviderView>,
    conflict: ConflictView,
    input_id: Seq<char>,
)
    requires
        asset.action == AssetActionKind::SelectOpaque || asset.action
            == AssetActionKind::Unsupported,
        asset_conflict(context.plan, asset) == Ok::<ConflictView, MergeErrorView>(conflict),
        selected_input(conflict, context.resolutions.choices) == Ok::<Seq<char>, MergeErrorView>(
            input_id,
        ),
    ensures
        package_donor(context, asset, packages) matches Ok(donor)
            ==> context.opened[donor.input_index as int].descriptor.id == input_id,
        loose_donor(context, asset, files) matches Ok(donor)
            ==> context.opened[donor.input_index as int].descriptor.id == input_id,
{
    found_providers_have_the_id(packages, context.opened, input_id, 0);
    found_files_have_the_id(files, context.opened, input_id, 0);
}

proof fn assets_add_audits(state: StagedView, context: OutputContextView, rest: Seq<AssetPlanView>)
    ensures
        with_assets(state, context, rest) matches Ok(staged) ==> staged.audits.len()
            == state.audits.len() + merged_count(rest),
    decreases rest.len(),
{
    if rest.len() > 0 {
        reveal(with_asset);
        merged_count_of_first(rest);
        match with_asset(state, context, rest[0]) {
            Ok(next) => {
                assets_add_audits(next, context, rest.skip(1));
            },
            Err(_) => {},
        }
    }
}

/// A prepared output has one ledger for each database that the plan merges.
pub proof fn one_audit_per_merged_database(
    plan: MergePlanView,
    resolutions: ResolutionSetView,
    opened: Seq<OpenedPakView>,
    databases: Seq<(Seq<char>, Seq<ParsedDbProviderView>)>,
    supplies: Seq<DatabaseSupply>,
    prepared: PreparedOutputView,
)
    requires
        prepared_output(plan, resolutions, opened, databases, supplies) == Ok::<
            PreparedOutputView,
            MergeErrorView,
        >(prepared),
    ensures
        prepared.audits.len() == merged_count(plan.assets),
{
    let carrier = input_with_id(opened, plan.carrier_input_id, 0)->0;
    let context = OutputContextView {
        plan,
        resolutions,
        opened,
        packages: packages_from(Seq::empty(), opened, 0),
        loose: loose_from(Seq::empty(), opened, 0),
        databases,
        carrier_index: carrier as usize,
        supplies,
    };
    assets_add_audits(nothing_staged(), context, plan.assets);
}

/// What is written once the files of all assets are known.
pub open spec fn ordered_output(
    staged: StagedView,
    opened: Seq<OpenedPakView>,
    mount: Seq<char>,
) -> Outcome<PreparedOutputView> {
    let entries = values(sorted(by_key(staged.entries)));
    match paths_unique(Seq::empty(), entries) {
        Err(error) => Err(error),
        Ok(_) => match placed_from(Seq::empty(), 0, opened, entries) {
            Err(error) => Err(error),
            Ok(placed) => Ok(
                PreparedOutputView {
                    entries: placed.0,
                    total_logical_bytes: placed.1 as u64,
                    mount,
                    preserved: staged.preserved,
                    replaced: staged.replaced,
                    audits: staged.audits,
                    told: staged.told,
                },
            ),
        },
    }
}

proof fn sorted_known(items: Seq<(Seq<char>, OutputEntryView)>, inputs: nat)
    requires
        forall|i: int| 0 <= i < items.len() ==> source_known((#[trigger] items[i]).1, inputs),
    ensures
        forall|i: int|
            0 <= i < sorted(items).len() ==> source_known((#[trigger] sorted(items)[i]).1, inputs),
    decreases items.len(),
{
    if items.len() > 0 {
        let tail = items.skip(1);
        assert forall|i: int| 0 <= i < tail.len() implies source_known(
            (#[trigger] tail[i]).1,
            inputs,
        ) by {
            assert(tail[i] == items[i + 1]);
        }
        sorted_known(tail, inputs);
        let rest = sorted(tail);
        slot_parts(rest, items[0].0);
        let at = slot(rest, items[0].0);
        let after = sorted(items);
        assert forall|i: int| 0 <= i < after.len() implies source_known(
            (#[trigger] after[i]).1,
            inputs,
        ) by {
            if i < at {
                assert(after[i] == rest[i]);
            } else if i > at {
                assert(after[i] == rest[i - 1]);
            } else {
                assert(after[i] == items[0]);
            }
        }
    }
}

fn order_entries(staged: Staged, opened: &Vec<OpenedPak>, mount: String) -> (result: Result<
    PreparedOutput,
>)
    requires
        all_well_formed(opened@),
        sources_known(views(staged.entries@), opened@.len()),
    ensures
        seen(result) == ordered_output(staged@, views(opened@), mount@),
        result matches Ok(prepared) ==> prepared.sources_known(opened@.len()),
{
    let entries = sort_entries(&staged.entries);
    proof {
        let items = by_key(views(staged.entries@));
        assert forall|i: int| 0 <= i < items.len() implies source_known(
            (#[trigger] items[i]).1,
            opened@.len(),
        ) by {
            assert(items[i].1 == views(staged.entries@)[i]);
        }
        sorted_known(items, opened@.len());
        assert forall|i: int| 0 <= i < entries@.len() implies source_known(
            #[trigger] views(entries@)[i],
            opened@.len(),
        ) by {
            assert(views(entries@)[i] == sorted(items)[i].1);
        }
    }
    match ensure_unique_output_paths(&entries) {
        Ok(_) => {},
        Err(error) => {
            return Err(error);
        },
    }
    let (placed, total) = match place_entries(opened, &entries) {
        Ok(found) => found,
        Err(error) => {
            return Err(error);
        },
    };
    Ok(
        PreparedOutput {
            entries: placed,
            total_logical_bytes: total,
            mount,
            preserved: staged.preserved,
            replaced: staged.replaced,
            audits: staged.audits,
            told: staged.told,
        },
    )
}

/// Decides what is written for a settled plan. `supplies` holds what stands
/// outside this library of each database that is merged, in the order of the plan;
/// where it ends early the merge was cancelled.
pub fn prepare_output(
    plan: &MergePlan,
    resolutions: &ResolutionSet,
    opened: &Vec<OpenedPak>,
    databases: &OrderedMap<ParsedProviders>,
    supplies: &Vec<DatabaseSupply>,
) -> (result: Result<PreparedOutput>)
    requires
        resolutions.choices.well_formed(),
        all_well_formed(opened@),
        databases.well_formed(),
        table_usable(databases@, opened@.len()),
    ensures
        seen(result) == prepared_output(
            plan@,
            resolutions@,
            views(opened@),
            databases@,
            supplies@,
        ),
        result matches Ok(prepared) ==> prepared.sources_known(opened@.len()),
{
    let carrier_index: usize = match find_input(opened, plan.carrier_input_id.as_str()) {
        Some(at) => at,
        None => {
            return Err(
                MergeError::InvalidRequest(
                    "The selected base Pak is no longer available.".to_owned(),
                ),
            );
        },
    };
    let (packages, loose) = collect_providers(opened);
    let count: usize = opened.len();
    proof {
        let inputs = views(opened@);
        assert(inputs.len() == opened@.len());
        packages_from_usable(Seq::empty(), inputs, 0);
        loose_from_usable(Seq::empty(), inputs, 0);
        assert(inputs[carrier_index as int] == opened@[carrier_index as int]@);
    }
    let context = OutputContext {
        plan,
        resolutions,
        opened,
        packages: &packages,
        loose: &loose,
        databases,
        carrier_index,
        supplies,
    };
    let staged = match stage_assets(&context) {
        Ok(staged) => staged,
        Err(error) => {
            return Err(error);
        },
    };
    let mount = opened[carrier_index].canonical_mount_point.clone();
    order_entries(staged, opened, mount)
}

/// The paths and sizes of the files, in order.
pub open spec fn entry_sizes(entries: Seq<PlacedEntryView>) -> Seq<(Seq<char>, u64)> {
    entries.map_values(|placed: PlacedEntryView| (placed.entry.path, placed.size))
}

pub open spec fn entry_paths(entries: Seq<PlacedEntryView>) -> Seq<Seq<char>> {
    entries.map_values(|placed: PlacedEntryView| placed.entry.path)
}

pub open spec fn audit_paths(audits: Seq<PendingAuditView>) -> Seq<Seq<char>> {
    audits.map_values(|audit: PendingAuditView| audit.pak_entry_path)
}

fn list_entry_sizes(entries: &Vec<PlacedEntry>) -> (result: Vec<(String, u64)>)
    ensures
        pair_views(result@) == entry_sizes(views(entries@)),
        result@.len() == entries@.len(),
{
    let ghost all = entry_sizes(views(entries@));
    let mut result: Vec<(String, u64)> = Vec::new();
    let mut at: usize = 0;
    assert(pair_views(result@) =~= all.take(0));
    while at < entries.len()
        invariant
            at <= entries@.len(),
            result@.len() == at,
            all == entry_sizes(views(entries@)),
            pair_views(result@) == all.take(at as int),
        decreases entries.len() - at,
    {
        let item = (entries[at].entry.path.clone(), entries[at].size);
        proof {
            assert(views(entries@)[at as int] == entries@[at as int]@);
            assert(all[at as int] == (item.0@, item.1));
            assert(pair_views(result@.push(item)) =~= pair_views(result@).push((item.0@, item.1)));
            assert(all.take(at as int + 1) =~= all.take(at as int).push(all[at as int]));
        }
        result.push(item);
        at += 1;
    }
    assert(all.take(at as int) =~= all);
    result
}

fn list_entry_paths(entries: &Vec<PlacedEntry>) -> (result: Vec<String>)
    ensures
        texts(result@) == entry_paths(views(entries@)),
{
    let ghost all = entry_paths(views(entries@));
    let mut result: Vec<String> = Vec::new();
    let mut at: usize = 0;
    assert(texts(result@) =~= all.take(0));
    while at < entries.len()
        invariant
            at <= entries@.len(),
            all == entry_paths(views(entries@)),
            texts(result@) == all.take(at as int),
        decreases entries.len() - at,
    {
        let path = entries[at].entry.path.clone();
        proof {
            texts_push(result@, path);
            assert(views(entries@)[at as int] == entries@[at as int]@);
            assert(all[at as int] == path@);
            assert(all.take(at as int + 1) =~= all.take(at as int).push(path@));
        }
        result.push(path);
        at += 1;
    }
    assert(all.take(at as int) =~= all);
    result
}

fn list_audit_paths(audits: &Vec<PendingRawPreservationAudit>) -> (result: Vec<String>)
    ensures
        texts(result@) == audit_paths(views(audits@)),
{
    let ghost all = audit_paths(views(audits@));
    let mut result: Vec<String> = Vec::new();
    let mut at: usize = 0;
    assert(texts(result@) =~= all.take(0));
    while at < audits.len()
        invariant
            at <= audits@.len(),
            all == audit_paths(views(audits@)),
            texts(result@) == all.take(at as int),
        decreases audits.len() - at,
    {
        let path = audits[at].pak_entry_path.clone();
        proof {
            texts_push(result@, path);
            assert(views(audits@)[at as int] == audits@[at as int]@);
            assert(all[at as int] == path@);
            assert(all.take(at as int + 1) =~= all.take(at as int).push(path@));
        }
        result.push(path);
        at += 1;
    }
    assert(all.take(at as int) =~= all);
    result
}

/// Checks that the work folder has the room that the output takes.
pub fn check_output_room(
    prepared: &PreparedOutput,
    compression: OutputCompression,
    layouts: &Vec<BlockLayout>,
    oodle_bounds: &BTreeMap<u64, u64>,
    granularity: u64,
    available: u64,
) -> (result: Result<()>)
    requires
        blocks_hold_bytes(layouts@),
        compression == OutputCompression::Oodle ==> layouts@.len() == prepared.entries@.len(),
    ensures
        seen(result) == work_room(
            available,
            output_room(
                prepared@.mount,
                entry_sizes(prepared@.entries),
                compression,
                layout_views(layouts@),
                oodle_bounds@,
                (if granularity == 0 {
                    1
                } else {
                    granularity as int
                }),
                (if granularity == 0 {
                    1
                } else {
                    granularity as int
                }),
            ),
        ),
{
    let entries = list_entry_sizes(&prepared.entries);
    ensure_output_disk_space(
        prepared.mount.as_str(),
        &entries,
        compression,
        layouts,
        oodle_bounds,
        granularity,
        available,
    )
}

/// The first file whose path has a key.
pub open spec fn placed_with_key(entries: Seq<PlacedEntryView>, key: Seq<char>, at: int) -> Option<int>
    decreases entries.len() - at,
{
    if at >= entries.len() {
        None
    } else if folded(entries[at].entry.path) == key {
        Some(at)
    } else {
        placed_with_key(entries, key, at + 1)
    }
}

fn find_placed(entries: &Vec<PlacedEntry>, path: &str) -> (result: Option<usize>)
    ensures
        match (result, placed_with_key(views(entries@), folded(path@), 0)) {
            (Some(at), Some(wanted)) => at == wanted && at < entries@.len(),
            (None, None) => true,
            _ => false,
        },
{
    let key = sort_key(path);
    let ghost all = views(entries@);
    let mut at: usize = 0;
    while at < entries.len()
        invariant
            at <= entries@.len(),
            all == views(entries@),
            key@ == folded(path@),
            placed_with_key(all, key@, 0) == placed_with_key(all, key@, at as int),
        decreases entries.len() - at,
    {
        assert(all[at as int] == entries@[at as int]@);
        if same_text(sort_key(entries[at].entry.path.as_str()).as_str(), key.as_str()) {
            return Some(at);
        }
        at += 1;
    }
    None
}

/// The bytes of the file that stands under a path of the output.
pub open spec fn output_bytes(
    entries: Seq<PlacedEntryView>,
    opened: Seq<OpenedPakView>,
    path: Seq<char>,
) -> std::result::Result<Seq<u8>, PakErrorView> {
    match placed_with_key(entries, folded(path), 0) {
        None => Err(PakErrorView::MissingEntry(path)),
        Some(at) => match entries[at].entry.source {
            OutputSourceView::Pak { input_index, path } => mapped_bytes(
                opened[input_index as int].archive,
                path,
                MAX_IN_MEMORY_ENTRY_BYTES,
            ),
            OutputSourceView::Built(bytes) => Ok(bytes),
        },
    }
}

/// The bytes of the file that stands under a path of the output.
pub fn read_output_source(prepared: &PreparedOutput, opened: &Vec<OpenedPak>, path: &str) -> (result:
    std::result::Result<Vec<u8>, PakError>)
    requires
        all_well_formed(opened@),
        prepared.sources_known(opened@.len()),
    ensures
        match (result, output_bytes(prepared@.entries, views(opened@), path@)) {
            (Ok(bytes), Ok(wanted)) => bytes@ == wanted,
            (Err(error), Err(wanted)) => error@ == wanted,
            _ => false,
        },
{
    match find_placed(&prepared.entries, path) {
        None => Err(PakError::MissingEntry(path.to_owned())),
        Some(at) => {
            assert(prepared@.entries[at as int] == prepared.entries@[at as int]@);
            match &prepared.entries[at].entry.source {
                OutputSource::Pak { input_index, path } => {
                    assert(source_known(prepared.entries@[at as int].entry@, opened@.len()));
                    let input = &opened[*input_index];
                    assert(views(opened@)[*input_index as int] == input@);
                    match input.archive.peek_entry(path.as_str(), MAX_IN_MEMORY_ENTRY_BYTES) {
                        Ok(bytes) => Ok(slice_to_vec(bytes.as_ref())),
                        Err(error) => Err(error),
                    }
                },
                OutputSource::Built(bytes) => Ok(slice_to_vec(bytes.as_slice())),
            }
        },
    }
}

/// The files of a write plan with their bytes.
pub open spec fn sources_from(
    done: Seq<PakWriteEntryView>,
    entries: Seq<PlacedEntryView>,
    opened: Seq<OpenedPakView>,
    paths: Seq<Seq<char>>,
) -> std::result::Result<Seq<PakWriteEntryView>, PakErrorView>
    decreases paths.len(),
{
    if paths.len() == 0 {
        Ok(done)
    } else {
        match output_bytes(entries, opened, paths[0]) {
            Err(error) => Err(error),
            Ok(data) => sources_from(
                done.push(PakWriteEntryView { path: paths[0], data }),
                entries,
                opened,
                paths.skip(1),
            ),
        }
    }
}

/// What the archive writer is told to write.
pub open spec fn output_order(
    prepared: PreparedOutputView,
    opened: Seq<OpenedPakView>,
    compression: OutputCompression,
    oodle_failure: Option<Seq<char>>,
) -> Outcome<WriteOrderView> {
    match write_plan(
        prepared.mount,
        entry_paths(prepared.entries),
        audit_paths(prepared.audits),
        compression,
        oodle_failure,
    ) {
        Err(error) => Err(MergeErrorView::Pak(error)),
        Ok(plan) => match sources_from(Seq::empty(), prepared.entries, opened, plan.paths) {
            Err(error) => Err(MergeErrorView::Pak(error)),
            Ok(entries) => Ok(
                WriteOrderView {
                    mount_point: plan.mount_point,
                    entries,
                    source_sha256: source_digests(plan, entries, plan.paths.len() as int),
                },
            ),
        },
    }
}

#[verifier::loop_isolation(false)]
fn read_sources(prepared: &PreparedOutput, opened: &Vec<OpenedPak>, paths: &Vec<String>) -> (result:
    std::result::Result<Vec<PakWriteEntry>, PakError>)
    requires
        all_well_formed(opened@),
        prepared.sources_known(opened@.len()),
    ensures
        match (
            result,
            sources_from(Seq::empty(), prepared@.entries, views(opened@), texts(paths@)),
        ) {
            (Ok(files), Ok(wanted)) => write_views(files@) == wanted && files@.len() == paths@.len(),
            (Err(error), Err(wanted)) => error@ == wanted,
            _ => false,
        },
{
    let ghost inputs = views(opened@);
    let ghost all = texts(paths@);
    let mut files: Vec<PakWriteEntry> = Vec::new();
    let mut at: usize = 0;
    proof {
        assert(all.skip(0) =~= all);
        assert(write_views(files@) =~= Seq::<PakWriteEntryView>::empty());
    }
    while at < paths.len()
        invariant
            at <= paths@.len(),
            files@.len() == at,
            sources_from(Seq::empty(), prepared@.entries, inputs, all) == sources_from(
                write_views(files@),
                prepared@.entries,
                inputs,
                all.skip(at as int),
            ),
        decreases paths.len() - at,
    {
        proof {
            assert(all.skip(at as int)[0] == paths@[at as int]@);
            assert(all.skip(at as int).skip(1) =~= all.skip(at as int + 1));
        }
        let data = match read_output_source(prepared, opened, paths[at].as_str()) {
            Ok(data) => data,
            Err(error) => {
                return Err(error);
            },
        };
        let file = PakWriteEntry { path: paths[at].clone(), data };
        proof {
            assert(write_views(files@.push(file)) =~= write_views(files@).push(file@));
        }
        files.push(file);
        at += 1;
    }
    Ok(files)
}

fn list_source_digests(plan: &WritePlan, files: &Vec<PakWriteEntry>) -> (result: Vec<(String, String)>)
    requires
        plan.hashed@.len() == files@.len(),
    ensures
        digest_views(result@) == source_digests(
            plan@,
            write_views(files@),
            files@.len() as int,
        ),
{
    let ghost all = write_views(files@);
    let mut result: Vec<(String, String)> = Vec::new();
    let mut at: usize = 0;
    assert(digest_views(result@) =~= Seq::<(Seq<char>, Seq<char>)>::empty());
    while at < files.len()
        invariant
            at <= files@.len() == plan.hashed@.len(),
            all == write_views(files@),
            digest_views(result@) == source_digests(plan@, all, at as int),
        decreases files.len() - at,
    {
        assert(all[at as int] == files@[at as int]@);
        if plan.hashed[at] {
            let digest = (
                files[at].path.clone(),
                hex_encode(sha256_of(files[at].data.as_slice()).as_slice()),
            );
            proof {
                assert(digest_views(result@.push(digest)) =~= digest_views(result@).push(
                    (digest.0@, digest.1@),
                ));
            }
            result.push(digest);
        }
        at += 1;
    }
    result
}

/// Decides what the archive writer is told to write.
pub fn order_output(
    prepared: &PreparedOutput,
    opened: &Vec<OpenedPak>,
    compression: OutputCompression,
    oodle_failure: &Option<String>,
) -> (result: Result<WriteOrder>)
    requires
        all_well_formed(opened@),
        prepared.sources_known(opened@.len()),
    ensures
        seen(result) == output_order(
            prepared@,
            views(opened@),
            compression,
            text_view(*oodle_failure),
        ),
{
    let paths = list_entry_paths(&prepared.entries);
    let hashed = list_audit_paths(&prepared.audits);
    let plan = match prepare_write(
        prepared.mount.as_str(),
        &paths,
        &hashed,
        compression,
        oodle_failure,
        false,
    ) {
        Ok(plan) => plan,
        Err(error) => {
            return Err(MergeError::Pak(error));
        },
    };
    let entries = match read_sources(prepared, opened, &plan.paths) {
        Ok(entries) => entries,
        Err(error) => {
            return Err(MergeError::Pak(error));
        },
    };
    assert(texts(plan.paths@).len() == plan.paths@.len());
    let source_sha256 = list_source_digests(&plan, &entries);
    Ok(WriteOrder { mount_point: plan.mount_point, entries, source_sha256 })
}

/// Why a merge whose archive could not be written stops.
pub fn write_failure(error: PakError, cancelled: bool) -> (result: MergeError)
    ensures
        result@ == (if cancelled {
            MergeErrorView::Cancelled
        } else {
            MergeErrorView::Pak(error@)
        }),
{
    if cancelled {
        MergeError::Cancelled
    } else {
        MergeError::Pak(error)
    }
}

/// How far a merge has come once its archive writer has come this far.
pub open spec fn progress_of(prepared: PreparedOutputView, event: PakWriteProgress) -> MergeProgressView {
    let all = if prepared.total_logical_bytes == 0 {
        1
    } else {
        prepared.total_logical_bytes
    };
    match event {
        PakWriteProgress::Writing { completed, total, current_path } => MergeProgressView {
            stage: MergeProgressStage::WritingPak,
            completed: match current_path {
                Some(path) => match placed_with_key(prepared.entries, folded(path@), 0) {
                    Some(at) => prepared.entries[at].offset,
                    None => if completed == total {
                        prepared.total_logical_bytes
                    } else {
                        0
                    },
                },
                None => if completed == total {
                    prepared.total_logical_bytes
                } else {
                    0
                },
            },
            total: all,
            current_item: text_view(current_path),
        },
        PakWriteProgress::WritingBytes { completed_bytes, total_bytes, current_path } => MergeProgressView {
            stage: MergeProgressStage::WritingPak,
            completed: match placed_with_key(prepared.entries, folded(current_path@), 0) {
                Some(at) => capped_sum(
                    prepared.entries[at].offset,
                    if completed_bytes < prepared.entries[at].size {
                        completed_bytes
                    } else {
                        prepared.entries[at].size
                    },
                ),
                None => if completed_bytes < prepared.total_logical_bytes {
                    completed_bytes
                } else {
                    prepared.total_logical_bytes
                },
            },
            total: all,
            current_item: Some(current_path@),
        },
        PakWriteProgress::Verifying => MergeProgressView {
            stage: MergeProgressStage::VerifyingPak,
            completed: 0,
            total: 1,
            current_item: None,
        },
        PakWriteProgress::VerificationProgress { completed_bytes, total_bytes, current_path } => MergeProgressView {
            stage: MergeProgressStage::VerifyingPak,
            completed: completed_bytes,
            total: total_bytes,
            current_item: text_view(current_path),
        },
    }
}

/// How far a merge has come once its archive writer has come this far.
pub fn write_progress(prepared: &PreparedOutput, event: &PakWriteProgress) -> (result: MergeProgress)
    ensures
        result@ == progress_of(prepared@, *event),
{
    let bytes: u64 = prepared.total_logical_bytes;
    let all: u64 = if bytes == 0 {
        1
    } else {
        bytes
    };
    match event {
        PakWriteProgress::Writing { completed, total, current_path } => {
            let without_place: u64 = if *completed == *total {
                bytes
            } else {
                0
            };
            let reached: u64 = match current_path {
                Some(path) => match find_placed(&prepared.entries, path.as_str()) {
                    Some(at) => {
                        assert(prepared@.entries[at as int] == prepared.entries@[at as int]@);
                        prepared.entries[at].offset
                    },
                    None => without_place,
                },
                None => without_place,
            };
            MergeProgress {
                stage: MergeProgressStage::WritingPak,
                completed: reached,
                total: all,
                current_item: clone_text(current_path),
            }
        },
        PakWriteProgress::WritingBytes { completed_bytes, total_bytes: _, current_path } => {
            let reached: u64 = match find_placed(&prepared.entries, current_path.as_str()) {
                Some(at) => {
                    assert(prepared@.entries[at as int] == prepared.entries@[at as int]@);
                    let within: u64 = if *completed_bytes < prepared.entries[at].size {
                        *completed_bytes
                    } else {
                        prepared.entries[at].size
                    };
                    add_capped(prepared.entries[at].offset, within)
                },
                None => if *completed_bytes < bytes {
                    *completed_bytes
                } else {
                    bytes
                },
            };
            MergeProgress {
                stage: MergeProgressStage::WritingPak,
                completed: reached,
                total: all,
                current_item: Some(current_path.clone()),
            }
        },
        PakWriteProgress::Verifying => MergeProgress {
            stage: MergeProgressStage::VerifyingPak,
            completed: 0,
            total: 1,
            current_item: None,
        },
        PakWriteProgress::VerificationProgress { completed_bytes, total_bytes, current_path } => MergeProgress {
            stage: MergeProgressStage::VerifyingPak,
            completed: *completed_bytes,
            total: *total_bytes,
            current_item: clone_text(current_path),
        },
    }
}

/// Files stand one behind the other, the first at the start, and end at `total`.
pub open spec fn in_a_row(entries: Seq<PlacedEntryView>, total: int) -> bool {
    &&& entries.len() == 0 ==> total == 0
    &&& entries.len() > 0 ==> entries[0].offset == 0 && entries.last().offset + entries.last().size
        == total
    &&& forall|i: int|
        0 < i < entries.len() ==> (#[trigger] entries[i]).offset == entries[i - 1].offset
            + entries[i - 1].size
}

pub proof fn placed_files_stand_in_a_row(
    done: Seq<PlacedEntryView>,
    total: int,
    opened: Seq<OpenedPakView>,
    entries: Seq<OutputEntryView>,
)
    requires
        in_a_row(done, total),
        0 <= total <= u64::MAX,
    ensures
        placed_from(done, total, opened, entries) matches Ok((placed, sum)) ==> in_a_row(placed, sum)
            && 0 <= sum <= u64::MAX && placed.len() == done.len() + entries.len() && (forall|i: int|
            0 <= i < done.len() ==> placed[i] == #[trigger] done[i]) && (forall|i: int|
            0 <= i < entries.len() ==> placed[done.len() + i].entry == #[trigger] entries[i]),
    decreases entries.len(),
{
    if entries.len() > 0 {
        match source_size(opened, entries[0].source) {
            Err(_) => {},
            Ok(size) => {
                if total + size <= u64::MAX {
                    let item = PlacedEntryView {
                        entry: entries[0],
                        offset: total as u64,
                        size: size as u64,
                    };
                    let more = done.push(item);
                    let rest = entries.skip(1);
                    assert(in_a_row(more, total + size)) by {
                        assert forall|i: int| 0 < i < more.len() implies (#[trigger] more[i]).offset
                            == more[i - 1].offset + more[i - 1].size by {
                            if i < done.len() {
                                assert(more[i] == done[i] && more[i - 1] == done[i - 1]);
                            } else {
                                assert(more[i - 1] == done[i - 1]);
                                assert(done.last() == done[i - 1]);
                            }
                        }
                        if done.len() > 0 {
                            assert(more[0] == done[0]);
                        }
                    }
                    placed_files_stand_in_a_row(more, total + size, opened, rest);
                    match placed_from(more, total + size, opened, rest) {
                        Err(_) => {},
                        Ok((placed, sum)) => {
                            assert forall|i: int| 0 <= i < done.len() implies placed[i]
                                == #[trigger] done[i] by {
                                assert(more[i] == done[i]);
                            }
                            assert forall|i: int| 0 <= i < entries.len() implies placed[done.len()
                                + i].entry == #[trigger] entries[i] by {
                                if i == 0 {
                                    assert(more[done.len() as int] == item);
                                } else {
                                    assert(rest[i - 1] == entries[i]);
                                }
                            }
                        },
                    }
                }
            },
        }
    }
}

proof fn unique_paths_differ(
    met: Seq<(Seq<char>, bool)>,
    entries: Seq<OutputEntryView>,
    i: int,
    j: int,
)
    requires
        ascending(met),
        paths_unique(met, entries) is Ok,
        -1 <= i < j < entries.len(),
    ensures
        i >= 0 ==> folded(entries[i].path) != folded(entries[j].path),
        get(met, folded(entries[j].path)) is None,
    decreases entries.len(),
{
    let key = folded(entries[0].path);
    let rest = entries.skip(1);
    put_keeps_order(met, key, true);
    if j > 0 {
        assert(rest[j - 1] == entries[j]);
        unique_paths_differ(put(met, key, true), rest, if i > 0 {
            i - 1
        } else {
            -1
        }, j - 1);
        put_then_get(met, key, true, folded(entries[j].path));
        if i > 0 {
            assert(rest[i - 1] == entries[i]);
        }
    }
}

/// Each file of an output has a path of its own, letter case aside, and the files
/// stand one behind the other: the place of each is the sum of the sizes before it,
/// and all sizes add up to the size of the output.
pub proof fn outputs_hold_each_path_once(
    plan: MergePlanView,
    resolutions: ResolutionSetView,
    opened: Seq<OpenedPakView>,
    databases: Seq<(Seq<char>, Seq<ParsedDbProviderView>)>,
    supplies: Seq<DatabaseSupply>,
)
    ensures
        prepared_output(plan, resolutions, opened, databases, supplies) matches Ok(prepared) ==> {
            &&& in_a_row(prepared.entries, prepared.total_logical_bytes as int)
            &&& forall|i: int, j: int|
                0 <= i < j < prepared.entries.len() ==> folded(
                    (#[trigger] prepared.entries[i]).entry.path,
                ) != folded((#[trigger] prepared.entries[j]).entry.path)
        },
{
    match prepared_output(plan, resolutions, opened, databases, supplies) {
        Err(_) => {},
        Ok(prepared) => {
            let carrier = input_with_id(opened, plan.carrier_input_id, 0)->0;
            let context = OutputContextView {
                plan,
                resolutions,
                opened,
                packages: packages_from(Seq::empty(), opened, 0),
                loose: loose_from(Seq::empty(), opened, 0),
                databases,
                carrier_index: carrier as usize,
                supplies,
            };
            let staged = with_assets(nothing_staged(), context, plan.assets)->Ok_0;
            let entries = values(sorted(by_key(staged.entries)));
            placed_files_stand_in_a_row(Seq::empty(), 0, opened, entries);
            assert forall|i: int, j: int| 0 <= i < j < prepared.entries.len() implies folded(
                (#[trigger] prepared.entries[i]).entry.path,
            ) != folded((#[trigger] prepared.entries[j]).entry.path) by {
                assert(prepared.entries[i].entry == entries[i]);
                assert(prepared.entries[j].entry == entries[j]);
                unique_paths_differ(Seq::empty(), entries, i, j);
            }
        },
    }
}

} // verus!
