//! Comparing Paks, planning their merge and checking its result.
pub mod error;
pub mod types;
pub mod ids;
pub mod uasset;
pub mod estimate;
pub mod progress;
pub mod request;
pub mod opened;
pub mod providers;
pub mod conflicts;
pub mod database;
pub mod rows;
pub mod differences;
pub mod row_ids;
pub mod placements;
pub mod group;
pub mod units;
pub mod analyze;
pub mod compared;
pub mod inputs;
pub mod digests;
pub mod session;
pub mod resolve;
pub mod choices;
pub mod audit;
pub mod assembly;
pub mod merged;
pub mod references;
pub mod links;
pub mod output;
pub mod verify;
pub mod verdicts;
pub mod chosen;
pub mod settled;
pub mod kept;
pub mod report;
pub mod write;
pub mod repeat;

pub use self::database::Reading;
pub use self::error::{MergeError, Result};
pub use self::opened::{FileStamp, InputArchive};
pub use self::output::DatabaseSupply;
pub use self::request::{FileSize, OutputTarget, OutputTargetStamp, PathName};
pub use self::resolve::resolve;
pub use self::session::{
    analyze, analyze_with_archives, analyze_with_archives_and_cancel, MergeAnalysisSession,
};
pub use self::types::{
    AnalysisRequest, AssetActionKind, AssetPlan, Conflict, ConflictKind, FinalEntryInventory,
    InputDescriptor, MergePlan, MergeProgress, MergeProgressStage, MergeReport, ProfileDetection,
    ProfileDetectionStatus, Provenance, RawPreservationAssetAudit, ResolutionSet,
    ResolvedConflictRecord, ResolvedPlan, Variant, VerificationResult, WriteOptions,
};
pub use self::verify::verify;
pub use self::write::{
    write_session_with_options_and_progress, write_session_with_options_progress_and_cancel,
    write_with_options, write_with_options_and_progress, OutputPlace, PreparedMerge,
    ReopenedInputs, StartedMerge,
};
