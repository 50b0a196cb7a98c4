//! The analysis of a job: from its inputs to a plan.
use vstd::prelude::*;

use super::conflicts::{count_allowed, ensure_conflict_count};
use super::database::{provider_well, ParsedDbProvider, ParsedDbProviderView, Reading};
use super::error::{seen, MergeError, MergeErrorView, Outcome, Result};
use super::ids::{folded, sort_key, stable_id, stable_id_of};
use super::opened::{all_well_formed, find_opened, opened_at, OpenedPak, OpenedPakView};
use super::types::{
    AnalysisRequest, AnalysisRequestView, AssetPlan, AssetPlanView, Conflict, ConflictView,
    InputDescriptor, InputDescriptorView, MergePlan, MergePlanView, ProfileDetection,
    ProfileDetectionStatus, ProfileDetectionView,
};
use super::units::{
    all_readings_well, analyze_units, collect_units, outputs_from, outputs_well, units_of,
    AnalysisUnitOutput, AnalysisUnitOutputView, ParsedDatabaseView,
};
use crate::lists::{views, views_push, Duplicate};
use crate::ordered::{put, slot, slot_parts, values, OrderedMap};
use crate::pak::archive::PakEntryInventoryView;
use crate::sorting::{distinct, pair_views, sort_distinct, sort_keyed, sorted, take_values};
use crate::text::{append_texts, cat2, cat3, cat5, clone_text, same_text, text_view, texts, texts_push};

verus! {

/// The profile that has built-in reference checks.
pub open spec fn checked_profile() -> Seq<char> {
    "octopath_traveler_0"@
}

/// The warning of a file whose recorded digest is out of date.
pub open spec fn outdated_warning(name: Seq<char>, entry: PakEntryInventoryView) -> Seq<char> {
    name + " contains "@ + entry.path
        + ", whose integrity value is outdated. Its data structure is valid, so the actual contents will be used and the merged Pak will store the corrected value (stored "@
        + (entry.stored_payload_sha1 + ", actual "@ + entry.payload_sha1 + ")."@)
}

/// The warnings of the files of one input.
pub open spec fn outdated_in(name: Seq<char>, entries: Seq<PakEntryInventoryView>) -> Seq<Seq<char>>
    decreases entries.len(),
{
    if entries.len() == 0 {
        Seq::empty()
    } else {
        let before = outdated_in(name, entries.drop_last());
        if entries.last().payload_sha1_matches {
            before
        } else {
            before.push(outdated_warning(name, entries.last()))
        }
    }
}

/// The warnings of the files of all inputs.
pub open spec fn outdated_entries(opened: Seq<OpenedPakView>) -> Seq<Seq<char>>
    decreases opened.len(),
{
    if opened.len() == 0 {
        Seq::empty()
    } else {
        outdated_entries(opened.drop_last()) + outdated_in(
            opened.last().descriptor.display_name,
            opened.last().archive.inventory.entries,
        )
    }
}

/// The warnings that follow from the profile.
pub open spec fn profile_warnings(detection: ProfileDetectionView) -> Seq<Seq<char>> {
    match detection.status {
        ProfileDetectionStatus::Selected => if detection.selected_profile_id == Some(
            checked_profile(),
        ) {
            Seq::empty()
        } else {
            seq![
                "Profile "@ + (match detection.selected_profile_id {
                    Some(id) => id,
                    None => "unknown"@,
                }) + " has no built-in reference checks."@,
            ]
        },
        ProfileDetectionStatus::GenericNoMatch => seq![
            "No database profile matched; using general field rules."@,
        ],
        ProfileDetectionStatus::GenericAmbiguous => seq![
            "Multiple database profiles matched; using general field rules."@,
        ],
    }
}

fn push_outdated(warnings: &mut Vec<String>, input: &OpenedPak)
    ensures
        texts(final(warnings)@) == texts(old(warnings)@) + outdated_in(
            input@.descriptor.display_name,
            input@.archive.inventory.entries,
        ),
{
    let ghost before = texts(warnings@);
    let ghost name = input@.descriptor.display_name;
    let ghost all = input@.archive.inventory.entries;
    let mut at: usize = 0;
    assert(before + outdated_in(name, all.take(0)) =~= before);
    while at < input.archive.inventory.entries.len()
        invariant
            at <= input.archive.inventory.entries@.len() == all.len(),
            name == input@.descriptor.display_name,
            all == input@.archive.inventory.entries,
            texts(warnings@) == before + outdated_in(name, all.take(at as int)),
        decreases input.archive.inventory.entries.len() - at,
    {
        let entry = &input.archive.inventory.entries[at];
        proof {
            assert(all[at as int] == entry@);
            assert(all.take(at as int + 1).drop_last() =~= all.take(at as int));
            assert(all.take(at as int + 1).last() == entry@);
        }
        if !entry.payload_sha1_matches {
            let rest = cat3(entry.stored_payload_sha1.as_str(), ", actual ", entry.payload_sha1.as_str());
            let warning = cat5(
                input.descriptor.display_name.as_str(),
                " contains ",
                entry.path.as_str(),
                ", whose integrity value is outdated. Its data structure is valid, so the actual contents will be used and the merged Pak will store the corrected value (stored ",
                cat2(rest.as_str(), ").").as_str(),
            );
            proof {
                texts_push(warnings@, warning);
                assert((before + outdated_in(name, all.take(at as int))).push(warning@) =~= before
                    + outdated_in(name, all.take(at as int)).push(warning@));
            }
            warnings.push(warning);
        }
        at += 1;
    }
    assert(all.take(at as int) =~= all);
}

fn first_warnings(opened: &Vec<OpenedPak>, detection: &ProfileDetection) -> (result: Vec<String>)
    ensures
        texts(result@) == outdated_entries(views(opened@)) + profile_warnings(detection@),
{
    let ghost all = views(opened@);
    let mut warnings: Vec<String> = Vec::new();
    let mut at: usize = 0;
    assert(texts(warnings@) =~= outdated_entries(all.take(0)));
    while at < opened.len()
        invariant
            at <= opened@.len(),
            all == views(opened@),
            texts(warnings@) == outdated_entries(all.take(at as int)),
        decreases opened.len() - at,
    {
        push_outdated(&mut warnings, &opened[at]);
        proof {
            assert(all.take(at as int + 1).drop_last() =~= all.take(at as int));
            assert(all.take(at as int + 1).last() == opened@[at as int]@);
        }
        at += 1;
    }
    assert(all.take(at as int) =~= all);
    let ghost before = texts(warnings@);
    match detection.status {
        ProfileDetectionStatus::Selected => {
            let known = match &detection.selected_profile_id {
                Some(id) => same_text(id.as_str(), "octopath_traveler_0"),
                None => false,
            };
            if !known {
                let name = match &detection.selected_profile_id {
                    Some(id) => id.as_str(),
                    None => "unknown",
                };
                let warning = cat3("Profile ", name, " has no built-in reference checks.");
                proof {
                    texts_push(warnings@, warning);
                    assert(before.push(warning@) =~= before + seq![warning@]);
                }
                warnings.push(warning);
            } else {
                assert(before =~= before + Seq::<Seq<char>>::empty());
            }
        },
        ProfileDetectionStatus::GenericNoMatch => {
            let warning = "No database profile matched; using general field rules.".to_owned();
            proof {
                texts_push(warnings@, warning);
                assert(before.push(warning@) =~= before + seq![warning@]);
            }
            warnings.push(warning);
        },
        ProfileDetectionStatus::GenericAmbiguous => {
            let warning = "Multiple database profiles matched; using general field rules.".to_owned();
            proof {
                texts_push(warnings@, warning);
                assert(before.push(warning@) =~= before + seq![warning@]);
            }
            warnings.push(warning);
        },
    }
    warnings
}

/// The databases of one package, read.
#[derive(Debug)]
pub struct ParsedProviders {
    pub list: Vec<ParsedDbProvider>,
}

impl View for ParsedProviders {
    type V = Seq<ParsedDbProviderView>;

    open spec fn view(&self) -> Seq<ParsedDbProviderView> {
        views(self.list@)
    }
}

/// Databases that were read: there is at least one, they name inputs that are
/// there, and each is in order.
pub open spec fn databases_usable(parsed: Seq<ParsedDbProviderView>, inputs: nat) -> bool {
    &&& parsed.len() > 0
    &&& forall|i: int| 0 <= i < parsed.len() ==> provider_well(#[trigger] parsed[i], inputs)
}

pub open spec fn table_usable(
    table: Seq<(Seq<char>, Seq<ParsedDbProviderView>)>,
    inputs: nat,
) -> bool {
    forall|i: int| 0 <= i < table.len() ==> databases_usable((#[trigger] table[i]).1, inputs)
}

proof fn put_usable(
    table: Seq<(Seq<char>, Seq<ParsedDbProviderView>)>,
    key: Seq<char>,
    parsed: Seq<ParsedDbProviderView>,
    inputs: nat,
)
    requires
        table_usable(table, inputs),
        databases_usable(parsed, inputs),
    ensures
        table_usable(put(table, key, parsed), inputs),
{
    slot_parts(table, key);
    let at = slot(table, key);
    let after = put(table, key, parsed);
    assert forall|i: int| 0 <= i < after.len() implies databases_usable(
        (#[trigger] after[i]).1,
        inputs,
    ) by {
        if at < table.len() && table[at].0 == key {
            if i != at {
                assert(after[i] == table[i]);
            }
        } else if i < at {
            assert(after[i] == table[i]);
        } else if i > at {
            assert(after[i] == table[i - 1]);
        }
    }
}

/// What the units of a job add up to.
#[verifier::ext_equal]
pub struct GatheredView {
    pub assets: Seq<AssetPlanView>,
    pub conflicts: Seq<ConflictView>,
    pub warnings: Seq<Seq<char>>,
    pub databases: Seq<(Seq<char>, Seq<ParsedDbProviderView>)>,
    pub cached_bytes: u64,
}

/// What the units of a job add up to.
#[derive(Debug)]
pub struct Gathered {
    pub assets: Vec<AssetPlan>,
    pub conflicts: Vec<Conflict>,
    pub warnings: Vec<String>,
    pub databases: OrderedMap<ParsedProviders>,
    pub cached_bytes: u64,
}

impl View for Gathered {
    type V = GatheredView;

    open spec fn view(&self) -> GatheredView {
        GatheredView {
            assets: views(self.assets@),
            conflicts: views(self.conflicts@),
            warnings: texts(self.warnings@),
            databases: self.databases@,
            cached_bytes: self.cached_bytes,
        }
    }
}

/// The sum with the databases of one more unit.
pub open spec fn with_database(state: GatheredView, database: Option<ParsedDatabaseView>) -> Outcome<
    GatheredView,
> {
    match database {
        None => Ok(state),
        Some(database) => if state.cached_bytes + database.cached_bytes > u64::MAX {
            Err(MergeErrorView::SizeOverflow("database cache"@))
        } else {
            Ok(
                GatheredView {
                    databases: put(state.databases, database.key, database.providers),
                    cached_bytes: (state.cached_bytes + database.cached_bytes) as u64,
                    ..state
                },
            )
        },
    }
}

/// The sum with one more unit.
pub open spec fn with_output(state: GatheredView, output: AnalysisUnitOutputView) -> Outcome<
    GatheredView,
> {
    match with_database(state, output.parsed_database) {
        Err(error) => Err(error),
        Ok(next) => {
            let conflicts = state.conflicts + output.conflicts;
            match count_allowed(conflicts.len() as int) {
                Err(error) => Err(error),
                Ok(_) => Ok(
                    GatheredView {
                        assets: state.assets.push(output.asset),
                        conflicts,
                        warnings: state.warnings + output.warnings,
                        ..next
                    },
                ),
            }
        },
    }
}

/// The sum of all units.
pub open spec fn gathered_from(state: GatheredView, outputs: Seq<AnalysisUnitOutputView>) -> Outcome<
    GatheredView,
>
    decreases outputs.len(),
{
    if outputs.len() == 0 {
        Ok(state)
    } else {
        match with_output(state, outputs[0]) {
            Err(error) => Err(error),
            Ok(next) => gathered_from(next, outputs.skip(1)),
        }
    }
}

fn add_output(state: &mut Gathered, output: AnalysisUnitOutput, inputs: usize) -> (result: Result<()>)
    requires
        old(state).databases.well_formed(),
        table_usable(old(state).databases@, inputs as nat),
        output.well_formed(inputs as nat),
    ensures
        match (result, with_output(old(state)@, output@)) {
            (Ok(_), Ok(wanted)) => final(state)@ == wanted && final(state).databases.well_formed()
                && table_usable(final(state).databases@, inputs as nat),
            (Err(error), Err(wanted)) => error@ == wanted,
            _ => false,
        },
{
    let ghost before = state@;
    match output.parsed_database {
        None => {},
        Some(database) => {
            match state.cached_bytes.checked_add(database.cached_bytes) {
                Some(total) => {
                    proof {
                        let found = views(database.providers@);
                        assert forall|i: int| 0 <= i < found.len() implies provider_well(
                            #[trigger] found[i],
                            inputs as nat,
                        ) by {
                            assert(found[i] == database.providers@[i]@);
                        }
                        assert(databases_usable(found, inputs as nat));
                        put_usable(state.databases@, database.key@, found, inputs as nat);
                    }
                    state.cached_bytes = total;
                    state.databases.insert(
                        database.key,
                        ParsedProviders { list: database.providers },
                    );
                },
                None => {
                    return Err(MergeError::SizeOverflow("database cache"));
                },
            }
        },
    }
    proof {
        views_push(state.assets@, output.asset);
    }
    state.assets.push(output.asset);
    let mut conflicts = output.conflicts;
    let mut warnings = output.warnings;
    let ghost more = views(conflicts@);
    let ghost more_warnings = texts(warnings@);
    state.conflicts.append(&mut conflicts);
    assert(views(state.conflicts@) =~= before.conflicts + more);
    match ensure_conflict_count(&state.conflicts) {
        Ok(_) => {},
        Err(error) => {
            return Err(error);
        },
    }
    state.warnings.append(&mut warnings);
    assert(texts(state.warnings@) =~= before.warnings + more_warnings);
    Ok(())
}

/// The sum of all units, from the warnings that were known before them.
pub open spec fn gathered(
    warnings: Seq<Seq<char>>,
    outputs: Seq<AnalysisUnitOutputView>,
) -> Outcome<GatheredView> {
    gathered_from(
        GatheredView {
            assets: Seq::empty(),
            conflicts: Seq::empty(),
            warnings,
            databases: Seq::empty(),
            cached_bytes: 0,
        },
        outputs,
    )
}

#[verifier::loop_isolation(false)]
fn gather(warnings: Vec<String>, outputs: Vec<AnalysisUnitOutput>, inputs: usize) -> (result: Result<
    Gathered,
>)
    requires
        outputs_well(outputs@, inputs as nat),
    ensures
        seen(result) == gathered(texts(warnings@), views(outputs@)),
        result matches Ok(found) ==> found.databases.well_formed() && table_usable(
            found.databases@,
            inputs as nat,
        ),
{
    let ghost all = views(outputs@);
    let ghost start = GatheredView {
        assets: Seq::empty(),
        conflicts: Seq::empty(),
        warnings: texts(warnings@),
        databases: Seq::empty(),
        cached_bytes: 0,
    };
    let mut state = Gathered {
        assets: Vec::new(),
        conflicts: Vec::new(),
        warnings,
        databases: OrderedMap::new(),
        cached_bytes: 0,
    };
    let mut rest = outputs;
    let ghost mut at: int = 0;
    proof {
        assert(all.skip(0) =~= all);
        assert(state@ =~= start);
    }
    while rest.len() > 0
        invariant
            0 <= at,
            at + rest@.len() == all.len(),
            views(rest@) == all.skip(at),
            outputs_well(rest@, inputs as nat),
            state.databases.well_formed(),
            table_usable(state.databases@, inputs as nat),
            gathered_from(start, all) == gathered_from(state@, all.skip(at)),
        decreases rest@.len(),
    {
        let ghost before = rest@;
        let output = rest.remove(0);
        proof {
            assert(output == before[0]);
            assert(views(before)[0] == output@);
            assert(all.skip(at)[0] == output@);
            assert(all.skip(at).skip(1) =~= all.skip(at + 1));
            assert(views(rest@) =~= views(before).skip(1));
            assert forall|i: int| 0 <= i < rest@.len() implies (#[trigger] rest@[i]).well_formed(
                inputs as nat,
            ) by {
                assert(rest@[i] == before[i + 1]);
            }
        }
        match add_output(&mut state, output, inputs) {
            Ok(_) => {},
            Err(error) => {
                return Err(error);
            },
        }
        proof {
            at = at + 1;
        }
    }
    Ok(state)
}

pub open spec fn by_path(assets: Seq<AssetPlanView>) -> Seq<(Seq<char>, AssetPlanView)> {
    assets.map_values(|asset: AssetPlanView| (folded(asset.virtual_path), asset))
}

pub open spec fn by_conflict_id(conflicts: Seq<ConflictView>) -> Seq<(Seq<char>, ConflictView)> {
    conflicts.map_values(|conflict: ConflictView| (conflict.id, conflict))
}

fn sort_assets(assets: &Vec<AssetPlan>) -> (result: Vec<AssetPlan>)
    ensures
        views(result@) == values(sorted(by_path(views(assets@)))),
{
    let ghost all = by_path(views(assets@));
    let mut items: Vec<(String, AssetPlan)> = Vec::new();
    let mut at: usize = 0;
    assert(pair_views(items@) =~= all.take(0));
    while at < assets.len()
        invariant
            at <= assets@.len(),
            all == by_path(views(assets@)),
            pair_views(items@) == all.take(at as int),
        decreases assets.len() - at,
    {
        let item = (sort_key(assets[at].virtual_path.as_str()), assets[at].copy());
        proof {
            assert(views(assets@)[at as int] == assets@[at as int]@);
            assert(all[at as int] == (item.0@, item.1@));
            assert(pair_views(items@.push(item)) =~= pair_views(items@).push((item.0@, item.1@)));
            assert(all.take(at as int + 1) =~= all.take(at as int).push(all[at as int]));
        }
        items.push(item);
        at += 1;
    }
    assert(all.take(at as int) =~= all);
    take_values(&sort_keyed(items))
}

fn sort_conflicts(conflicts: &Vec<Conflict>) -> (result: Vec<Conflict>)
    ensures
        views(result@) == values(sorted(by_conflict_id(views(conflicts@)))),
{
    let ghost all = by_conflict_id(views(conflicts@));
    let mut items: Vec<(String, Conflict)> = Vec::new();
    let mut at: usize = 0;
    assert(pair_views(items@) =~= all.take(0));
    while at < conflicts.len()
        invariant
            at <= conflicts@.len(),
            all == by_conflict_id(views(conflicts@)),
            pair_views(items@) == all.take(at as int),
        decreases conflicts.len() - at,
    {
        let item = (conflicts[at].id.clone(), conflicts[at].copy());
        proof {
            assert(views(conflicts@)[at as int] == conflicts@[at as int]@);
            assert(all[at as int] == (item.0@, item.1@));
            assert(pair_views(items@.push(item)) =~= pair_views(items@).push((item.0@, item.1@)));
            assert(all.take(at as int + 1) =~= all.take(at as int).push(all[at as int]));
        }
        items.push(item);
        at += 1;
    }
    assert(all.take(at as int) =~= all);
    take_values(&sort_keyed(items))
}

/// A sum that stays at the largest number.
pub open spec fn capped_sum(left: u64, right: u64) -> u64 {
    if left + right > u64::MAX {
        u64::MAX
    } else {
        (left + right) as u64
    }
}

/// The sum, or the largest number where it is larger.
pub fn add_capped(left: u64, right: u64) -> (result: u64)
    ensures
        result == capped_sum(left, right),
{
    match left.checked_add(right) {
        Some(sum) => sum,
        None => u64::MAX,
    }
}

/// How many values of all assets are stored differently.
pub open spec fn drift_total(assets: Seq<AssetPlanView>) -> u64
    decreases assets.len(),
{
    if assets.len() == 0 {
        0
    } else {
        capped_sum(drift_total(assets.drop_last()), assets.last().encoding_drift_count)
    }
}

fn sum_drift(assets: &Vec<AssetPlan>) -> (result: u64)
    ensures
        result == drift_total(views(assets@)),
{
    let ghost all = views(assets@);
    let mut total: u64 = 0;
    let mut at: usize = 0;
    while at < assets.len()
        invariant
            at <= assets@.len(),
            all == views(assets@),
            total == drift_total(all.take(at as int)),
        decreases assets.len() - at,
    {
        proof {
            assert(all.take(at as int + 1).drop_last() =~= all.take(at as int));
            assert(all.take(at as int + 1).last() == assets@[at as int]@);
        }
        total = match total.checked_add(assets[at].encoding_drift_count) {
            Some(sum) => sum,
            None => u64::MAX,
        };
        at += 1;
    }
    assert(all.take(at as int) =~= all);
    total
}

/// How a plan's id names the outcome of the profile detection.
pub open spec fn status_id(status: ProfileDetectionStatus) -> Seq<char> {
    match status {
        ProfileDetectionStatus::Selected => "selected"@,
        ProfileDetectionStatus::GenericNoMatch => "generic_no_match"@,
        ProfileDetectionStatus::GenericAmbiguous => "generic_ambiguous"@,
    }
}

pub fn profile_detection_status_id(status: ProfileDetectionStatus) -> (result: &'static str)
    ensures
        result@ == status_id(status),
{
    match status {
        ProfileDetectionStatus::Selected => "selected",
        ProfileDetectionStatus::GenericNoMatch => "generic_no_match",
        ProfileDetectionStatus::GenericAmbiguous => "generic_ambiguous",
    }
}

/// The profile to which a plan is bound.
pub open spec fn pinned_profile(plan: MergePlanView) -> Option<Seq<char>> {
    if plan.profile_detection_status == Some(ProfileDetectionStatus::Selected) {
        plan.selected_profile_id
    } else {
        None
    }
}

pub fn pinned_profile_id(plan: &MergePlan) -> (result: Option<String>)
    ensures
        text_view(result) == pinned_profile(plan@),
{
    match plan.profile_detection_status {
        Some(ProfileDetectionStatus::Selected) => clone_text(&plan.selected_profile_id),
        _ => None,
    }
}

pub open spec fn descriptors(opened: Seq<OpenedPakView>) -> Seq<InputDescriptorView> {
    opened.map_values(|input: OpenedPakView| input.descriptor)
}

pub open spec fn digests(inputs: Seq<InputDescriptorView>) -> Seq<Seq<char>> {
    inputs.map_values(|input: InputDescriptorView| input.sha256)
}

pub open spec fn conflict_ids(conflicts: Seq<ConflictView>) -> Seq<Seq<char>> {
    conflicts.map_values(|conflict: ConflictView| conflict.id)
}

/// The id of a plan: it follows from the inputs, the base Pak, the profile and the
/// conflicts.
pub open spec fn plan_id_of(
    inputs: Seq<InputDescriptorView>,
    carrier_id: Seq<char>,
    detection: ProfileDetectionView,
    conflicts: Seq<ConflictView>,
) -> Seq<char> {
    stable_id_of("plan"@, plan_parts(inputs, carrier_id, detection, conflicts))
}

/// What the id of a plan is made from.
pub open spec fn plan_parts(
    inputs: Seq<InputDescriptorView>,
    carrier_id: Seq<char>,
    detection: ProfileDetectionView,
    conflicts: Seq<ConflictView>,
) -> Seq<Seq<char>> {
    digests(inputs) + profile_part(carrier_id, detection) + conflict_ids(conflicts)
}

pub open spec fn profile_part(carrier_id: Seq<char>, detection: ProfileDetectionView) -> Seq<Seq<char>> {
    seq![
        carrier_id,
        status_id(detection.status),
        match detection.selected_profile_id {
            Some(id) => id,
            None => "generic"@,
        },
    ]
}

fn list_digests(inputs: &Vec<InputDescriptor>) -> (result: Vec<String>)
    ensures
        texts(result@) == digests(views(inputs@)),
{
    let ghost all = digests(views(inputs@));
    let mut result: Vec<String> = Vec::new();
    let mut at: usize = 0;
    assert(texts(result@) =~= all.take(0));
    while at < inputs.len()
        invariant
            at <= inputs@.len(),
            all == digests(views(inputs@)),
            texts(result@) == all.take(at as int),
        decreases inputs.len() - at,
    {
        let digest = inputs[at].sha256.clone();
        proof {
            texts_push(result@, digest);
            assert(all[at as int] == digest@);
            assert(all.take(at as int + 1) =~= all.take(at as int).push(digest@));
        }
        result.push(digest);
        at += 1;
    }
    assert(all.take(at as int) =~= all);
    result
}

pub fn list_conflict_ids(conflicts: &Vec<Conflict>) -> (result: Vec<String>)
    ensures
        texts(result@) == conflict_ids(views(conflicts@)),
{
    let ghost all = conflict_ids(views(conflicts@));
    let mut result: Vec<String> = Vec::new();
    let mut at: usize = 0;
    assert(texts(result@) =~= all.take(0));
    while at < conflicts.len()
        invariant
            at <= conflicts@.len(),
            all == conflict_ids(views(conflicts@)),
            texts(result@) == all.take(at as int),
        decreases conflicts.len() - at,
    {
        let id = conflicts[at].id.clone();
        proof {
            texts_push(result@, id);
            assert(all[at as int] == id@);
            assert(all.take(at as int + 1) =~= all.take(at as int).push(id@));
        }
        result.push(id);
        at += 1;
    }
    assert(all.take(at as int) =~= all);
    result
}

fn profile_parts(carrier_id: &str, detection: &ProfileDetection) -> (result: Vec<String>)
    ensures
        texts(result@) == profile_part(carrier_id@, detection@),
{
    let pinned = match &detection.selected_profile_id {
        Some(id) => id.clone(),
        None => "generic".to_owned(),
    };
    let mut parts: Vec<String> = Vec::new();
    parts.push(carrier_id.to_owned());
    parts.push(profile_detection_status_id(detection.status).to_owned());
    parts.push(pinned);
    assert(texts(parts@) =~= seq![carrier_id@, status_id(detection@.status), pinned@]);
    parts
}

fn make_plan_id(
    inputs: &Vec<InputDescriptor>,
    carrier_id: &str,
    detection: &ProfileDetection,
    conflicts: &Vec<Conflict>,
) -> (result: String)
    ensures
        result@ == plan_id_of(views(inputs@), carrier_id@, detection@, views(conflicts@)),
{
    let mut parts = list_digests(inputs);
    append_texts(&mut parts, &profile_parts(carrier_id, detection));
    append_texts(&mut parts, &list_conflict_ids(conflicts));
    assert(texts(parts@) == plan_parts(
        views(inputs@),
        carrier_id@,
        detection@,
        views(conflicts@),
    ));
    stable_id("plan", &parts)
}

fn list_descriptors(opened: &Vec<OpenedPak>) -> (result: Vec<InputDescriptor>)
    ensures
        views(result@) == descriptors(views(opened@)),
{
    let ghost all = descriptors(views(opened@));
    let mut result: Vec<InputDescriptor> = Vec::new();
    let mut at: usize = 0;
    while at < opened.len()
        invariant
            at <= opened@.len(),
            all == descriptors(views(opened@)),
            views(result@) == all.take(at as int),
        decreases opened.len() - at,
    {
        let descriptor = opened[at].descriptor.copy();
        proof {
            views_push(result@, descriptor);
            assert(all[at as int] == descriptor@);
            assert(all.take(at as int + 1) =~= all.take(at as int).push(descriptor@));
        }
        result.push(descriptor);
        at += 1;
    }
    assert(all.take(at as int) =~= all);
    result
}

/// The plan of a job whose units add up to `found`.
pub open spec fn plan_of(
    request: AnalysisRequestView,
    opened: Seq<OpenedPakView>,
    carrier_id: Seq<char>,
    detection: ProfileDetectionView,
    found: GatheredView,
) -> MergePlanView {
    let inputs = descriptors(opened);
    let assets = values(sorted(by_path(found.assets)));
    let conflicts = values(sorted(by_conflict_id(found.conflicts)));
    MergePlanView {
        schema_version: 1,
        plan_id: plan_id_of(inputs, carrier_id, detection, conflicts),
        request,
        inputs,
        carrier_input_id: carrier_id,
        assets,
        conflicts,
        warnings: distinct(found.warnings),
        selected_profile_id: detection.selected_profile_id,
        profile_detection_status: Some(detection.status),
        encoding_drift_count: drift_total(assets),
        full_reencode_forbidden: true,
    }
}

fn make_plan(
    request: AnalysisRequest,
    opened: &Vec<OpenedPak>,
    carrier_id: String,
    detection: ProfileDetection,
    found: &Gathered,
) -> (result: MergePlan)
    ensures
        result@ == plan_of(request@, views(opened@), carrier_id@, detection@, found@),
{
    let inputs = list_descriptors(opened);
    let assets = sort_assets(&found.assets);
    let conflicts = sort_conflicts(&found.conflicts);
    let warnings = sort_distinct(&found.warnings);
    let encoding_drift_count: u64 = sum_drift(&assets);
    let plan_id = make_plan_id(&inputs, carrier_id.as_str(), &detection, &conflicts);
    MergePlan {
        schema_version: 1,
        plan_id,
        request,
        inputs,
        carrier_input_id: carrier_id,
        assets,
        conflicts,
        warnings,
        selected_profile_id: detection.selected_profile_id,
        profile_detection_status: Some(detection.status),
        encoding_drift_count,
        full_reencode_forbidden: true,
    }
}

/// A plan and the databases that were read for it.
#[verifier::ext_equal]
pub struct AnalysisView {
    pub plan: MergePlanView,
    pub databases: Seq<(Seq<char>, Seq<ParsedDbProviderView>)>,
    pub cached_bytes: u64,
}

/// A plan and the databases that were read for it.
#[derive(Debug)]
pub struct Analysis {
    pub plan: MergePlan,
    pub databases: OrderedMap<ParsedProviders>,
    pub cached_bytes: u64,
}

impl View for Analysis {
    type V = AnalysisView;

    open spec fn view(&self) -> AnalysisView {
        AnalysisView {
            plan: self.plan@,
            databases: self.databases@,
            cached_bytes: self.cached_bytes,
        }
    }
}

impl Analysis {
    pub open spec fn well_formed(&self, inputs: nat) -> bool {
        self.databases.well_formed() && table_usable(self.databases@, inputs)
    }
}

/// The analysis of a job whose units have yielded `outputs`.
pub open spec fn finished_analysis(
    request: AnalysisRequestView,
    opened: Seq<OpenedPakView>,
    carrier: int,
    detection: ProfileDetectionView,
    outputs: Seq<AnalysisUnitOutputView>,
) -> Outcome<AnalysisView> {
    match gathered(outdated_entries(opened) + profile_warnings(detection), outputs) {
        Err(error) => Err(error),
        Ok(found) => Ok(
            AnalysisView {
                plan: plan_of(request, opened, opened[carrier].descriptor.id, detection, found),
                databases: found.databases,
                cached_bytes: found.cached_bytes,
            },
        ),
    }
}

/// The analysis of a job.
pub open spec fn analysis_of(
    request: AnalysisRequestView,
    opened: Seq<OpenedPakView>,
    detection: ProfileDetectionView,
    readings: Seq<Vec<Reading>>,
    steps_per_unit: int,
) -> Outcome<AnalysisView> {
    match opened_at(opened, request.carrier_path) {
        None => Err(
            MergeErrorView::InvalidRequest("The base Pak must be one of the selected Pak files."@),
        ),
        Some(carrier) => {
            let units = units_of(opened);
            if units.len() * steps_per_unit > usize::MAX {
                Err(MergeErrorView::SizeOverflow("analysis progress"@))
            } else {
                match outputs_from(Seq::empty(), opened, units, carrier as usize, readings, 0) {
                    Err(error) => Err(error),
                    Ok(outputs) => finished_analysis(request, opened, carrier, detection, outputs),
                }
            }
        },
    }
}

/// Makes the plan of a job from what its units have yielded.
pub fn finish_analysis(
    request: AnalysisRequest,
    opened: &Vec<OpenedPak>,
    carrier: usize,
    detection: ProfileDetection,
    outputs: Vec<AnalysisUnitOutput>,
) -> (result: Result<Analysis>)
    requires
        carrier < opened@.len(),
        outputs_well(outputs@, opened@.len()),
    ensures
        seen(result) == finished_analysis(
            request@,
            views(opened@),
            carrier as int,
            detection@,
            views(outputs@),
        ),
        result matches Ok(found) ==> found.well_formed(opened@.len()),
{
    assert(views(opened@)[carrier as int] == opened@[carrier as int]@);
    let warnings = first_warnings(opened, &detection);
    let found = match gather(warnings, outputs, opened.len()) {
        Ok(found) => found,
        Err(error) => {
            return Err(error);
        },
    };
    let carrier_id = opened[carrier].descriptor.id.clone();
    let plan = make_plan(request, opened, carrier_id, detection, &found);
    Ok(Analysis { plan, databases: found.databases, cached_bytes: found.cached_bytes })
}

/// Analyzes opened inputs. `detection` is what the profile registry made of their
/// inventory, and `readings` holds for each unit what the reader made of its
/// databases.
pub fn analyze_opened(
    request: AnalysisRequest,
    opened: &Vec<OpenedPak>,
    detection: ProfileDetection,
    readings: Vec<Vec<Reading>>,
    steps_per_unit: usize,
) -> (result: Result<Analysis>)
    requires
        all_well_formed(opened@),
        all_readings_well(readings@),
    ensures
        seen(result) == analysis_of(
            request@,
            views(opened@),
            detection@,
            readings@,
            steps_per_unit as int,
        ),
        result matches Ok(found) ==> found.well_formed(opened@.len()),
{
    let carrier: usize = match find_opened(opened, request.carrier_path.as_str()) {
        Some(at) => at,
        None => {
            return Err(
                MergeError::InvalidRequest(
                    "The base Pak must be one of the selected Pak files.".to_owned(),
                ),
            );
        },
    };
    let units = collect_units(opened);
    assert(units@.len() == units_of(views(opened@)).len());
    if units.len().checked_mul(steps_per_unit).is_none() {
        return Err(MergeError::SizeOverflow("analysis progress"));
    }
    let outputs = match analyze_units(&units, opened, carrier, readings) {
        Ok(outputs) => outputs,
        Err(error) => {
            return Err(error);
        },
    };
    finish_analysis(request, opened, carrier, detection, outputs)
}

} // verus!
