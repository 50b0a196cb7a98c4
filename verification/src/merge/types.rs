//! The records that an analysis yields and a merge reports.
use vstd::prelude::*;

use crate::lists::{copy_list, views, Duplicate};
use crate::ordered::OrderedMap;
use crate::pak::write::OutputCompression;
use crate::text::{clone_text, clone_texts, text_view, texts};

verus! {

/// How many Paks one job may take.
pub const MAX_SUPPORTED_PAKS: usize = 64;

/// How many bytes the Paks of one job may hold together: 128 GiB.
pub const MAX_SUPPORTED_TOTAL_BYTES: u64 = 137_438_953_472;

/// Which Paks are to be merged.
#[derive(Debug, Clone, PartialEq, Eq)]
pub struct AnalysisRequest {
    pub pak_paths: Vec<String>,
    /// The base Pak, whose format is kept where no choice is made.
    pub carrier_path: String,
}

#[verifier::ext_equal]
pub struct AnalysisRequestView {
    pub pak_paths: Seq<Seq<char>>,
    pub carrier_path: Seq<char>,
}

impl View for AnalysisRequest {
    type V = AnalysisRequestView;

    open spec fn view(&self) -> AnalysisRequestView {
        AnalysisRequestView {
            pak_paths: texts(self.pak_paths@),
            carrier_path: self.carrier_path@,
        }
    }
}

impl Duplicate for AnalysisRequest {
    fn copy(&self) -> (result: Self) {
        AnalysisRequest {
            pak_paths: clone_texts(&self.pak_paths),
            carrier_path: self.carrier_path.clone(),
        }
    }
}

/// An input Pak.
#[derive(Debug, Clone, PartialEq, Eq)]
pub struct InputDescriptor {
    pub id: String,
    pub path: String,
    pub display_name: String,
    pub sha256: String,
    pub size: u64,
    pub pak_version: Option<u32>,
    pub mount_point: Option<String>,
    pub entry_count: Option<usize>,
}

#[verifier::ext_equal]
pub struct InputDescriptorView {
    pub id: Seq<char>,
    pub path: Seq<char>,
    pub display_name: Seq<char>,
    pub sha256: Seq<char>,
    pub size: u64,
    pub pak_version: Option<u32>,
    pub mount_point: Option<Seq<char>>,
    pub entry_count: Option<usize>,
}

impl View for InputDescriptor {
    type V = InputDescriptorView;

    open spec fn view(&self) -> InputDescriptorView {
        InputDescriptorView {
            id: self.id@,
            path: self.path@,
            display_name: self.display_name@,
            sha256: self.sha256@,
            size: self.size,
            pak_version: self.pak_version,
            mount_point: text_view(self.mount_point),
            entry_count: self.entry_count,
        }
    }
}

impl Duplicate for InputDescriptor {
    fn copy(&self) -> (result: Self) {
        InputDescriptor {
            id: self.id.clone(),
            path: self.path.clone(),
            display_name: self.display_name.clone(),
            sha256: self.sha256.clone(),
            size: self.size,
            pak_version: self.pak_version,
            mount_point: clone_text(&self.mount_point),
            entry_count: self.entry_count,
        }
    }
}

/// Where a variant comes from.
#[derive(Debug, Clone, PartialEq, Eq)]
pub struct Provenance {
    pub input_id: String,
    pub input_path: String,
    pub entry_path: Option<String>,
    pub raw_sha256: String,
}

#[verifier::ext_equal]
pub struct ProvenanceView {
    pub input_id: Seq<char>,
    pub input_path: Seq<char>,
    pub entry_path: Option<Seq<char>>,
    pub raw_sha256: Seq<char>,
}

impl View for Provenance {
    type V = ProvenanceView;

    open spec fn view(&self) -> ProvenanceView {
        ProvenanceView {
            input_id: self.input_id@,
            input_path: self.input_path@,
            entry_path: text_view(self.entry_path),
            raw_sha256: self.raw_sha256@,
        }
    }
}

impl Duplicate for Provenance {
    fn copy(&self) -> (result: Self) {
        Provenance {
            input_id: self.input_id.clone(),
            input_path: self.input_path.clone(),
            entry_path: clone_text(&self.entry_path),
            raw_sha256: self.raw_sha256.clone(),
        }
    }
}

/// One of the values that a conflict can be settled with.
#[derive(Debug, Clone, PartialEq, Eq)]
pub struct Variant {
    pub id: String,
    pub label: String,
    pub input_id: String,
    pub raw_sha256: String,
    pub semantic_sha256: String,
    pub preview: String,
    pub marker: String,
    pub provenance: Provenance,
}

#[verifier::ext_equal]
pub struct VariantView {
    pub id: Seq<char>,
    pub label: Seq<char>,
    pub input_id: Seq<char>,
    pub raw_sha256: Seq<char>,
    pub semantic_sha256: Seq<char>,
    pub preview: Seq<char>,
    pub marker: Seq<char>,
    pub provenance: ProvenanceView,
}

impl View for Variant {
    type V = VariantView;

    open spec fn view(&self) -> VariantView {
        VariantView {
            id: self.id@,
            label: self.label@,
            input_id: self.input_id@,
            raw_sha256: self.raw_sha256@,
            semantic_sha256: self.semantic_sha256@,
            preview: self.preview@,
            marker: self.marker@,
            provenance: self.provenance@,
        }
    }
}

impl Duplicate for Variant {
    fn copy(&self) -> (result: Self) {
        Variant {
            id: self.id.clone(),
            label: self.label.clone(),
            input_id: self.input_id.clone(),
            raw_sha256: self.raw_sha256.clone(),
            semantic_sha256: self.semantic_sha256.clone(),
            preview: self.preview.clone(),
            marker: self.marker.clone(),
            provenance: self.provenance.copy(),
        }
    }
}

/// What a conflict is about.
#[derive(Debug, Clone, Copy, PartialEq, Eq, Structural)]
pub enum ConflictKind {
    FieldValue,
    AtomicGroup,
    EncodingDrift,
    RowIdCollision,
    StructureMismatch,
    OpaquePackage,
    PotentialPlacementCollision,
}

/// The name of a kind of conflict.
pub open spec fn kind_text(kind: ConflictKind) -> Seq<char> {
    match kind {
        ConflictKind::FieldValue => "FieldValue"@,
        ConflictKind::AtomicGroup => "AtomicGroup"@,
        ConflictKind::EncodingDrift => "EncodingDrift"@,
        ConflictKind::RowIdCollision => "RowIdCollision"@,
        ConflictKind::StructureMismatch => "StructureMismatch"@,
        ConflictKind::OpaquePackage => "OpaquePackage"@,
        ConflictKind::PotentialPlacementCollision => "PotentialPlacementCollision"@,
    }
}

impl ConflictKind {
    /// The name of the kind.
    pub fn name(self) -> (result: &'static str)
        ensures
            result@ == kind_text(self),
    {
        match self {
            ConflictKind::FieldValue => "FieldValue",
            ConflictKind::AtomicGroup => "AtomicGroup",
            ConflictKind::EncodingDrift => "EncodingDrift",
            ConflictKind::RowIdCollision => "RowIdCollision",
            ConflictKind::StructureMismatch => "StructureMismatch",
            ConflictKind::OpaquePackage => "OpaquePackage",
            ConflictKind::PotentialPlacementCollision => "PotentialPlacementCollision",
        }
    }
}

/// A difference between inputs. A blocking one needs a choice.
#[derive(Debug, Clone, PartialEq, Eq)]
pub struct Conflict {
    pub id: String,
    pub kind: ConflictKind,
    pub asset_path: String,
    pub row_id: Option<String>,
    pub group_id: Option<String>,
    pub message: String,
    pub variants: Vec<Variant>,
    pub blocking: bool,
}

#[verifier::ext_equal]
pub struct ConflictView {
    pub id: Seq<char>,
    pub kind: ConflictKind,
    pub asset_path: Seq<char>,
    pub row_id: Option<Seq<char>>,
    pub group_id: Option<Seq<char>>,
    pub message: Seq<char>,
    pub variants: Seq<VariantView>,
    pub blocking: bool,
}

impl View for Conflict {
    type V = ConflictView;

    open spec fn view(&self) -> ConflictView {
        ConflictView {
            id: self.id@,
            kind: self.kind,
            asset_path: self.asset_path@,
            row_id: text_view(self.row_id),
            group_id: text_view(self.group_id),
            message: self.message@,
            variants: views(self.variants@),
            blocking: self.blocking,
        }
    }
}

impl Duplicate for Conflict {
    fn copy(&self) -> (result: Self) {
        Conflict {
            id: self.id.clone(),
            kind: self.kind,
            asset_path: self.asset_path.clone(),
            row_id: clone_text(&self.row_id),
            group_id: clone_text(&self.group_id),
            message: self.message.clone(),
            variants: copy_list(&self.variants),
            blocking: self.blocking,
        }
    }
}

/// What the merge does with a file or a package.
#[derive(Debug, Clone, Copy, PartialEq, Eq, Structural)]
pub enum AssetActionKind {
    Copy,
    Deduplicate,
    MergeDatabase,
    SelectOpaque,
    Unsupported,
}

/// The plan for one file or package.
#[derive(Debug, Clone, PartialEq, Eq)]
pub struct AssetPlan {
    pub virtual_path: String,
    pub package_entries: Vec<String>,
    pub action: AssetActionKind,
    pub donor_input_ids: Vec<String>,
    pub conflict_ids: Vec<String>,
    pub warnings: Vec<String>,
    pub encoding_drift_count: u64,
}

#[verifier::ext_equal]
pub struct AssetPlanView {
    pub virtual_path: Seq<char>,
    pub package_entries: Seq<Seq<char>>,
    pub action: AssetActionKind,
    pub donor_input_ids: Seq<Seq<char>>,
    pub conflict_ids: Seq<Seq<char>>,
    pub warnings: Seq<Seq<char>>,
    pub encoding_drift_count: u64,
}

impl View for AssetPlan {
    type V = AssetPlanView;

    open spec fn view(&self) -> AssetPlanView {
        AssetPlanView {
            virtual_path: self.virtual_path@,
            package_entries: texts(self.package_entries@),
            action: self.action,
            donor_input_ids: texts(self.donor_input_ids@),
            conflict_ids: texts(self.conflict_ids@),
            warnings: texts(self.warnings@),
            encoding_drift_count: self.encoding_drift_count,
        }
    }
}

impl Duplicate for AssetPlan {
    fn copy(&self) -> (result: Self) {
        AssetPlan {
            virtual_path: self.virtual_path.clone(),
            package_entries: clone_texts(&self.package_entries),
            action: self.action,
            donor_input_ids: clone_texts(&self.donor_input_ids),
            conflict_ids: clone_texts(&self.conflict_ids),
            warnings: clone_texts(&self.warnings),
            encoding_drift_count: self.encoding_drift_count,
        }
    }
}

/// Whether a game profile was recognised.
#[derive(Debug, Clone, Copy, PartialEq, Eq, Structural)]
pub enum ProfileDetectionStatus {
    Selected,
    GenericNoMatch,
    GenericAmbiguous,
}

/// What the profile registry found in an inventory.
#[derive(Debug, Clone, PartialEq, Eq)]
pub struct ProfileDetection {
    pub status: ProfileDetectionStatus,
    pub selected_profile_id: Option<String>,
}

#[verifier::ext_equal]
pub struct ProfileDetectionView {
    pub status: ProfileDetectionStatus,
    pub selected_profile_id: Option<Seq<char>>,
}

impl View for ProfileDetection {
    type V = ProfileDetectionView;

    open spec fn view(&self) -> ProfileDetectionView {
        ProfileDetectionView {
            status: self.status,
            selected_profile_id: text_view(self.selected_profile_id),
        }
    }
}

impl Duplicate for ProfileDetection {
    fn copy(&self) -> (result: Self) {
        ProfileDetection {
            status: self.status,
            selected_profile_id: clone_text(&self.selected_profile_id),
        }
    }
}

/// The outcome of an analysis.
#[derive(Debug, Clone, PartialEq, Eq)]
pub struct MergePlan {
    pub schema_version: u32,
    pub plan_id: String,
    pub request: AnalysisRequest,
    pub inputs: Vec<InputDescriptor>,
    pub carrier_input_id: String,
    pub assets: Vec<AssetPlan>,
    pub conflicts: Vec<Conflict>,
    pub warnings: Vec<String>,
    pub selected_profile_id: Option<String>,
    pub profile_detection_status: Option<ProfileDetectionStatus>,
    pub encoding_drift_count: u64,
    pub full_reencode_forbidden: bool,
}

#[verifier::ext_equal]
pub struct MergePlanView {
    pub schema_version: u32,
    pub plan_id: Seq<char>,
    pub request: AnalysisRequestView,
    pub inputs: Seq<InputDescriptorView>,
    pub carrier_input_id: Seq<char>,
    pub assets: Seq<AssetPlanView>,
    pub conflicts: Seq<ConflictView>,
    pub warnings: Seq<Seq<char>>,
    pub selected_profile_id: Option<Seq<char>>,
    pub profile_detection_status: Option<ProfileDetectionStatus>,
    pub encoding_drift_count: u64,
    pub full_reencode_forbidden: bool,
}

impl View for MergePlan {
    type V = MergePlanView;

    open spec fn view(&self) -> MergePlanView {
        MergePlanView {
            schema_version: self.schema_version,
            plan_id: self.plan_id@,
            request: self.request@,
            inputs: views(self.inputs@),
            carrier_input_id: self.carrier_input_id@,
            assets: views(self.assets@),
            conflicts: views(self.conflicts@),
            warnings: texts(self.warnings@),
            selected_profile_id: text_view(self.selected_profile_id),
            profile_detection_status: self.profile_detection_status,
            encoding_drift_count: self.encoding_drift_count,
            full_reencode_forbidden: self.full_reencode_forbidden,
        }
    }
}

impl Duplicate for MergePlan {
    fn copy(&self) -> (result: Self) {
        MergePlan {
            schema_version: self.schema_version,
            plan_id: self.plan_id.clone(),
            request: self.request.copy(),
            inputs: copy_list(&self.inputs),
            carrier_input_id: self.carrier_input_id.clone(),
            assets: copy_list(&self.assets),
            conflicts: copy_list(&self.conflicts),
            warnings: clone_texts(&self.warnings),
            selected_profile_id: clone_text(&self.selected_profile_id),
            profile_detection_status: self.profile_detection_status,
            encoding_drift_count: self.encoding_drift_count,
            full_reencode_forbidden: self.full_reencode_forbidden,
        }
    }
}

/// A copy of recorded choices.
fn copy_choices(choices: &OrderedMap<String>) -> (result: OrderedMap<String>)
    ensures
        result@ == choices@,
{
    let mut items: Vec<(String, String)> = Vec::new();
    let mut at: usize = 0;
    let ghost all = choices@;
    while at < choices.items.len()
        invariant
            at <= choices.items@.len(),
            all == choices@,
            items@.map_values(|item: (String, String)| (item.0@, item.1@)) == all.take(at as int),
        decreases choices.items.len() - at,
    {
        let key = choices.items[at].0.clone();
        let value = choices.items[at].1.clone();
        let ghost before = items@;
        items.push((key, value));
        proof {
            assert(items@.map_values(|item: (String, String)| (item.0@, item.1@)) =~= before.map_values(
                |item: (String, String)| (item.0@, item.1@),
            ).push((key@, value@)));
            assert(all.take(at as int + 1) =~= all.take(at as int).push(all[at as int]));
        }
        at += 1;
    }
    assert(all.take(at as int) =~= all);
    OrderedMap { items }
}

/// The choices that settle conflicts: for each conflict the id of a variant.
#[derive(Debug, Clone, PartialEq, Eq)]
pub struct ResolutionSet {
    pub plan_id: String,
    pub choices: OrderedMap<String>,
}

#[verifier::ext_equal]
pub struct ResolutionSetView {
    pub plan_id: Seq<char>,
    pub choices: Seq<(Seq<char>, Seq<char>)>,
}

impl View for ResolutionSet {
    type V = ResolutionSetView;

    open spec fn view(&self) -> ResolutionSetView {
        ResolutionSetView {
            plan_id: self.plan_id@,
            choices: self.choices@,
        }
    }
}

impl Duplicate for ResolutionSet {
    fn copy(&self) -> (result: Self) {
        ResolutionSet {
            plan_id: self.plan_id.clone(),
            choices: copy_choices(&self.choices),
        }
    }
}

impl ResolutionSet {
    /// No choice at all, for whichever plan.
    pub fn new() -> (result: Self)
        ensures
            result@.plan_id == Seq::<char>::empty(),
            result@.choices == Seq::<(Seq<char>, Seq<char>)>::empty(),
            result.choices.well_formed(),
    {
        ResolutionSet { plan_id: String::new(), choices: OrderedMap::new() }
    }
}

impl Default for ResolutionSet {
    fn default() -> (result: Self)
        ensures
            result@.plan_id == Seq::<char>::empty(),
            result@.choices == Seq::<(Seq<char>, Seq<char>)>::empty(),
            result.choices.well_formed(),
    {
        ResolutionSet::new()
    }
}

/// A plan whose conflicts are settled.
#[derive(Debug, Clone, PartialEq, Eq)]
pub struct ResolvedPlan {
    pub plan: MergePlan,
    pub resolutions: ResolutionSet,
}

#[verifier::ext_equal]
pub struct ResolvedPlanView {
    pub plan: MergePlanView,
    pub resolutions: ResolutionSetView,
}

impl View for ResolvedPlan {
    type V = ResolvedPlanView;

    open spec fn view(&self) -> ResolvedPlanView {
        ResolvedPlanView {
            plan: self.plan@,
            resolutions: self.resolutions@,
        }
    }
}

impl Duplicate for ResolvedPlan {
    fn copy(&self) -> (result: Self) {
        ResolvedPlan {
            plan: self.plan.copy(),
            resolutions: self.resolutions.copy(),
        }
    }
}

/// How a merged Pak is written.
#[derive(Debug, Clone, Copy, PartialEq, Eq, Structural)]
pub struct WriteOptions {
    pub compression: OutputCompression,
    pub multithreaded: bool,
    pub overwrite_existing: bool,
}

impl Default for WriteOptions {
    fn default() -> (result: Self)
        ensures
            result == (WriteOptions {
                compression: OutputCompression::Uncompressed,
                multithreaded: true,
                overwrite_existing: false,
            }),
    {
        WriteOptions {
            compression: OutputCompression::Uncompressed,
            multithreaded: true,
            overwrite_existing: false,
        }
    }
}

/// The stages of a merge.
#[derive(Debug, Clone, Copy, PartialEq, Eq, Structural)]
pub enum MergeProgressStage {
    CheckingInputs,
    ComparingChanges,
    PreparingFiles,
    IndexingDatabase,
    BuildingDatabase,
    WritingPak,
    VerifyingPak,
    CheckingReferences,
    Finalizing,
}

/// How far a merge has come.
#[derive(Debug, Clone, PartialEq, Eq)]
pub struct MergeProgress {
    pub stage: MergeProgressStage,
    pub completed: u64,
    pub total: u64,
    pub current_item: Option<String>,
}

#[verifier::ext_equal]
pub struct MergeProgressView {
    pub stage: MergeProgressStage,
    pub completed: u64,
    pub total: u64,
    pub current_item: Option<Seq<char>>,
}

impl View for MergeProgress {
    type V = MergeProgressView;

    open spec fn view(&self) -> MergeProgressView {
        MergeProgressView {
            stage: self.stage,
            completed: self.completed,
            total: self.total,
            current_item: text_view(self.current_item),
        }
    }
}

impl Duplicate for MergeProgress {
    fn copy(&self) -> (result: Self) {
        MergeProgress {
            stage: self.stage,
            completed: self.completed,
            total: self.total,
            current_item: clone_text(&self.current_item),
        }
    }
}

/// A file of the merged Pak.
#[derive(Debug, Clone, PartialEq, Eq)]
pub struct FinalEntryInventory {
    pub path: String,
    pub size: u64,
    pub sha256: String,
}

#[verifier::ext_equal]
pub struct FinalEntryInventoryView {
    pub path: Seq<char>,
    pub size: u64,
    pub sha256: Seq<char>,
}

impl View for FinalEntryInventory {
    type V = FinalEntryInventoryView;

    open spec fn view(&self) -> FinalEntryInventoryView {
        FinalEntryInventoryView {
            path: self.path@,
            size: self.size,
            sha256: self.sha256@,
        }
    }
}

impl Duplicate for FinalEntryInventory {
    fn copy(&self) -> (result: Self) {
        FinalEntryInventory {
            path: self.path.clone(),
            size: self.size,
            sha256: self.sha256.clone(),
        }
    }
}

/// The proof that a merged database keeps what no choice touched.
#[derive(Debug, Clone, PartialEq, Eq)]
pub struct RawPreservationAssetAudit {
    pub asset_path: String,
    pub pak_entry_path: String,
    pub entry_sha256: String,
    pub ledger_sha256: String,
    pub verified_row_count: u64,
    pub verified_atomic_unit_count: u64,
    pub preserved_node_count: u64,
    pub replaced_node_count: u64,
    pub passed: bool,
}

#[verifier::ext_equal]
pub struct RawPreservationAssetAuditView {
    pub asset_path: Seq<char>,
    pub pak_entry_path: Seq<char>,
    pub entry_sha256: Seq<char>,
    pub ledger_sha256: Seq<char>,
    pub verified_row_count: u64,
    pub verified_atomic_unit_count: u64,
    pub preserved_node_count: u64,
    pub replaced_node_count: u64,
    pub passed: bool,
}

impl View for RawPreservationAssetAudit {
    type V = RawPreservationAssetAuditView;

    open spec fn view(&self) -> RawPreservationAssetAuditView {
        RawPreservationAssetAuditView {
            asset_path: self.asset_path@,
            pak_entry_path: self.pak_entry_path@,
            entry_sha256: self.entry_sha256@,
            ledger_sha256: self.ledger_sha256@,
            verified_row_count: self.verified_row_count,
            verified_atomic_unit_count: self.verified_atomic_unit_count,
            preserved_node_count: self.preserved_node_count,
            replaced_node_count: self.replaced_node_count,
            passed: self.passed,
        }
    }
}

impl Duplicate for RawPreservationAssetAudit {
    fn copy(&self) -> (result: Self) {
        RawPreservationAssetAudit {
            asset_path: self.asset_path.clone(),
            pak_entry_path: self.pak_entry_path.clone(),
            entry_sha256: self.entry_sha256.clone(),
            ledger_sha256: self.ledger_sha256.clone(),
            verified_row_count: self.verified_row_count,
            verified_atomic_unit_count: self.verified_atomic_unit_count,
            preserved_node_count: self.preserved_node_count,
            replaced_node_count: self.replaced_node_count,
            passed: self.passed,
        }
    }
}

/// How a conflict was settled.
#[derive(Debug, Clone, PartialEq, Eq)]
pub struct ResolvedConflictRecord {
    pub conflict_id: String,
    pub selected_variant: Option<Variant>,
    pub automatic: bool,
}

#[verifier::ext_equal]
pub struct ResolvedConflictRecordView {
    pub conflict_id: Seq<char>,
    pub selected_variant: Option<VariantView>,
    pub automatic: bool,
}

impl View for ResolvedConflictRecord {
    type V = ResolvedConflictRecordView;

    open spec fn view(&self) -> ResolvedConflictRecordView {
        ResolvedConflictRecordView {
            conflict_id: self.conflict_id@,
            selected_variant: (match self.selected_variant {
                Some(value) => Some(value@),
                None => None,
            }),
            automatic: self.automatic,
        }
    }
}

impl Duplicate for ResolvedConflictRecord {
    fn copy(&self) -> (result: Self) {
        ResolvedConflictRecord {
            conflict_id: self.conflict_id.clone(),
            selected_variant: match &self.selected_variant {
                Some(value) => Some(value.copy()),
                None => None,
            },
            automatic: self.automatic,
        }
    }
}

/// What a merge did.
#[derive(Debug, Clone, PartialEq, Eq)]
pub struct MergeReport {
    pub schema_version: u32,
    pub tool_version: String,
    pub plan_id: String,
    pub carrier_input_id: String,
    pub inputs: Vec<InputDescriptor>,
    pub output_path: String,
    pub output_sha256: String,
    pub output_size: u64,
    pub output_entry_count: usize,
    pub output_pak_version: u32,
    pub output_mount_point: String,
    pub output_compression: String,
    pub output_encrypted: bool,
    pub output_signed: bool,
    pub final_inventory: Vec<FinalEntryInventory>,
    pub actions: Vec<AssetPlan>,
    pub conflicts: Vec<Conflict>,
    pub resolved_conflicts: Vec<ResolvedConflictRecord>,
    pub resolutions: ResolutionSet,
    pub warnings: Vec<String>,
    pub raw_preserved_nodes: u64,
    pub raw_replaced_nodes: u64,
    pub raw_preservation_audits: Vec<RawPreservationAssetAudit>,
    pub encoding_drift_count: u64,
    pub reference_validation_warnings: Vec<String>,
    pub full_reencode_forbidden: bool,
    pub verification_passed: bool,
}

#[verifier::ext_equal]
pub struct MergeReportView {
    pub schema_version: u32,
    pub tool_version: Seq<char>,
    pub plan_id: Seq<char>,
    pub carrier_input_id: Seq<char>,
    pub inputs: Seq<InputDescriptorView>,
    pub output_path: Seq<char>,
    pub output_sha256: Seq<char>,
    pub output_size: u64,
    pub output_entry_count: usize,
    pub output_pak_version: u32,
    pub output_mount_point: Seq<char>,
    pub output_compression: Seq<char>,
    pub output_encrypted: bool,
    pub output_signed: bool,
    pub final_inventory: Seq<FinalEntryInventoryView>,
    pub actions: Seq<AssetPlanView>,
    pub conflicts: Seq<ConflictView>,
    pub resolved_conflicts: Seq<ResolvedConflictRecordView>,
    pub resolutions: ResolutionSetView,
    pub warnings: Seq<Seq<char>>,
    pub raw_preserved_nodes: u64,
    pub raw_replaced_nodes: u64,
    pub raw_preservation_audits: Seq<RawPreservationAssetAuditView>,
    pub encoding_drift_count: u64,
    pub reference_validation_warnings: Seq<Seq<char>>,
    pub full_reencode_forbidden: bool,
    pub verification_passed: bool,
}

impl View for MergeReport {
    type V = MergeReportView;

    open spec fn view(&self) -> MergeReportView {
        MergeReportView {
            schema_version: self.schema_version,
            tool_version: self.tool_version@,
            plan_id: self.plan_id@,
            carrier_input_id: self.carrier_input_id@,
            inputs: views(self.inputs@),
            output_path: self.output_path@,
            output_sha256: self.output_sha256@,
            output_size: self.output_size,
            output_entry_count: self.output_entry_count,
            output_pak_version: self.output_pak_version,
            output_mount_point: self.output_mount_point@,
            output_compression: self.output_compression@,
            output_encrypted: self.output_encrypted,
            output_signed: self.output_signed,
            final_inventory: views(self.final_inventory@),
            actions: views(self.actions@),
            conflicts: views(self.conflicts@),
            resolved_conflicts: views(self.resolved_conflicts@),
            resolutions: self.resolutions@,
            warnings: texts(self.warnings@),
            raw_preserved_nodes: self.raw_preserved_nodes,
            raw_replaced_nodes: self.raw_replaced_nodes,
            raw_preservation_audits: views(self.raw_preservation_audits@),
            encoding_drift_count: self.encoding_drift_count,
            reference_validation_warnings: texts(self.reference_validation_warnings@),
            full_reencode_forbidden: self.full_reencode_forbidden,
            verification_passed: self.verification_passed,
        }
    }
}

impl Duplicate for MergeReport {
    fn copy(&self) -> (result: Self) {
        MergeReport {
            schema_version: self.schema_version,
            tool_version: self.tool_version.clone(),
            plan_id: self.plan_id.clone(),
            carrier_input_id: self.carrier_input_id.clone(),
            inputs: copy_list(&self.inputs),
            output_path: self.output_path.clone(),
            output_sha256: self.output_sha256.clone(),
            output_size: self.output_size,
            output_entry_count: self.output_entry_count,
            output_pak_version: self.output_pak_version,
            output_mount_point: self.output_mount_point.clone(),
            output_compression: self.output_compression.clone(),
            output_encrypted: self.output_encrypted,
            output_signed: self.output_signed,
            final_inventory: copy_list(&self.final_inventory),
            actions: copy_list(&self.actions),
            conflicts: copy_list(&self.conflicts),
            resolved_conflicts: copy_list(&self.resolved_conflicts),
            resolutions: self.resolutions.copy(),
            warnings: clone_texts(&self.warnings),
            raw_preserved_nodes: self.raw_preserved_nodes,
            raw_replaced_nodes: self.raw_replaced_nodes,
            raw_preservation_audits: copy_list(&self.raw_preservation_audits),
            encoding_drift_count: self.encoding_drift_count,
            reference_validation_warnings: clone_texts(&self.reference_validation_warnings),
            full_reencode_forbidden: self.full_reencode_forbidden,
            verification_passed: self.verification_passed,
        }
    }
}

/// Whether a Pak is what its report says.
#[derive(Debug, Clone, PartialEq, Eq)]
pub struct VerificationResult {
    pub valid: bool,
    pub pak_sha256: String,
    pub entry_count: usize,
    pub errors: Vec<String>,
    pub warnings: Vec<String>,
}

#[verifier::ext_equal]
pub struct VerificationResultView {
    pub valid: bool,
    pub pak_sha256: Seq<char>,
    pub entry_count: usize,
    pub errors: Seq<Seq<char>>,
    pub warnings: Seq<Seq<char>>,
}

impl View for VerificationResult {
    type V = VerificationResultView;

    open spec fn view(&self) -> VerificationResultView {
        VerificationResultView {
            valid: self.valid,
            pak_sha256: self.pak_sha256@,
            entry_count: self.entry_count,
            errors: texts(self.errors@),
            warnings: texts(self.warnings@),
        }
    }
}

impl Duplicate for VerificationResult {
    fn copy(&self) -> (result: Self) {
        VerificationResult {
            valid: self.valid,
            pak_sha256: self.pak_sha256.clone(),
            entry_count: self.entry_count,
            errors: clone_texts(&self.errors),
            warnings: clone_texts(&self.warnings),
        }
    }
}

} // verus!
