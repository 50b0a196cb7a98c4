//! Writing the merge of a settled plan, up to the point where the archive writer
//! takes over, and from there to the report.
use std::collections::BTreeMap;

use vstd::prelude::*;

use super::analyze::{analysis_of, analyze_opened, table_usable, ParsedProviders};
use super::audit::ledgers_have_digests;
use super::database::{ParsedDbProviderView, Reading};
use super::error::{check_cancel, seen, MergeError, MergeErrorView, Outcome, Result};
use super::estimate::{blocks_hold_bytes, layout_views, output_room, work_room, BlockLayout};
use super::opened::{
    all_well_formed, archives_well_formed, changed_input, mistaken_input, open_paks,
    opened_in_order, verify_input_identities, verify_session_input_stamps, FileStamp,
    InputArchive, InputArchiveView, OpenedPak, OpenedPakView,
};
use super::output::{
    check_output_room, entry_sizes, order_output, output_order, prepare_output, prepared_output,
    DatabaseSupply, PreparedOutput, PreparedOutputView,
};
use super::report::{finish_merge, finished_report};
use super::request::{
    capture_output_target, captured_target, output_path_allowed, request_allowed,
    require_output_path, size_views, validate_request, FileSize, OutputTarget, OutputTargetStamp,
    OutputTargetView, PathName, PathNameView,
};
use super::resolve::{adopted, resolutions_allowed, validate_resolutions};
use super::session::{MergeAnalysisSession, SessionView};
use super::types::{
    MergePlan, MergePlanView, MergeProgress, MergeProgressStage, MergeProgressView, MergeReport,
    ProfileDetection, ProfileDetectionView, ResolutionSet, ResolutionSetView, ResolvedPlan,
    ResolvedPlanView, WriteOptions,
};
use super::units::all_readings_well;
use crate::lists::{views, Duplicate};
use crate::ordered::OrderedMap;
use crate::pak::open::PakArchive;
use crate::pak::write::{digest_views, OutputCompression, WriteOrder};
use crate::text::{same_text, text_view};

verus! {

/// Where an output goes, and what stands there.
#[derive(Debug)]
pub struct OutputPlace {
    pub path: String,
    pub name: PathName,
    pub target: OutputTarget,
}

#[verifier::ext_equal]
pub struct OutputPlaceView {
    pub path: Seq<char>,
    pub name: PathNameView,
    pub target: OutputTargetView,
}

impl View for OutputPlace {
    type V = OutputPlaceView;

    open spec fn view(&self) -> OutputPlaceView {
        OutputPlaceView { path: self.path@, name: self.name@, target: self.target@ }
    }
}

/// The inputs of a job, opened again, with what stands outside this library of
/// their analysis; everything in the order of the request.
#[derive(Debug)]
pub struct ReopenedInputs<'a> {
    pub names: Vec<PathName>,
    pub sizes: Vec<FileSize>,
    pub archives: Vec<InputArchive<'a>>,
    pub detection: ProfileDetection,
    pub readings: Vec<Vec<Reading>>,
    pub steps_per_unit: usize,
}

#[verifier::ext_equal]
pub struct ReopenedInputsView {
    pub names: Seq<PathNameView>,
    pub sizes: Seq<std::result::Result<u64, Seq<char>>>,
    pub archives: Seq<InputArchiveView>,
    pub detection: ProfileDetectionView,
    pub readings: Seq<Vec<Reading>>,
    pub steps_per_unit: int,
}

impl<'a> View for ReopenedInputs<'a> {
    type V = ReopenedInputsView;

    open spec fn view(&self) -> ReopenedInputsView {
        ReopenedInputsView {
            names: views(self.names@),
            sizes: size_views(self.sizes@),
            archives: views(self.archives@),
            detection: self.detection@,
            readings: self.readings@,
            steps_per_unit: self.steps_per_unit as int,
        }
    }
}

impl<'a> ReopenedInputs<'a> {
    /// One name and one archive for each path, and readings in order.
    pub open spec fn answer(&self, paths: nat) -> bool {
        &&& self.names@.len() == paths
        &&& self.archives@.len() == paths
        &&& archives_well_formed(self.archives@)
        &&& all_readings_well(self.readings@)
    }
}

/// A merge whose output is decided and not yet written.
#[derive(Debug)]
pub struct PreparedMerge {
    pub plan: MergePlan,
    pub resolutions: ResolutionSet,
    pub prepared: PreparedOutput,
    pub existing_output: Option<OutputTargetStamp>,
    pub options: WriteOptions,
}

#[verifier::ext_equal]
pub struct PreparedMergeView {
    pub plan: MergePlanView,
    pub resolutions: ResolutionSetView,
    pub prepared: PreparedOutputView,
    pub existing_output: Option<OutputTargetStamp>,
    pub options: WriteOptions,
}

impl View for PreparedMerge {
    type V = PreparedMergeView;

    open spec fn view(&self) -> PreparedMergeView {
        PreparedMergeView {
            plan: self.plan@,
            resolutions: self.resolutions@,
            prepared: self.prepared@,
            existing_output: self.existing_output,
            options: self.options,
        }
    }
}

/// A merge whose output is decided, with its inputs.
#[derive(Debug)]
pub struct StartedMerge<'a> {
    pub merge: PreparedMerge,
    pub opened: Vec<OpenedPak<'a>>,
}

#[verifier::ext_equal]
pub struct StartedMergeView {
    pub merge: PreparedMergeView,
    pub opened: Seq<OpenedPakView>,
}

impl<'a> View for StartedMerge<'a> {
    type V = StartedMergeView;

    open spec fn view(&self) -> StartedMergeView {
        StartedMergeView { merge: self.merge@, opened: views(self.opened@) }
    }
}

impl<'a> StartedMerge<'a> {
    /// The inputs are in order, and the files of the output come from them.
    pub open spec fn well_formed(&self) -> bool {
        &&& all_well_formed(self.opened@)
        &&& self.merge.well_formed(self.opened@.len())
    }
}

/// What a job with settled conflicts writes.
pub open spec fn settled_output(
    plan: MergePlanView,
    resolutions: ResolutionSetView,
    opened: Seq<OpenedPakView>,
    databases: Seq<(Seq<char>, Seq<ParsedDbProviderView>)>,
    supplies: Seq<DatabaseSupply>,
    existing_output: Option<OutputTargetStamp>,
    options: WriteOptions,
) -> Outcome<PreparedMergeView> {
    match prepared_output(plan, resolutions, opened, databases, supplies) {
        Err(error) => Err(error),
        Ok(prepared) => Ok(
            PreparedMergeView { plan, resolutions, prepared, existing_output, options },
        ),
    }
}

impl PreparedMerge {
    /// The choices are in order, and the files of the output come from the inputs
    /// of the job.
    pub open spec fn well_formed(&self, inputs: nat) -> bool {
        &&& self.resolutions.choices.well_formed()
        &&& self.prepared.sources_known(inputs)
    }

    /// Checks that the work folder has room for the output.
    pub fn check_room(
        &self,
        layouts: &Vec<BlockLayout>,
        oodle_bounds: &BTreeMap<u64, u64>,
        granularity: u64,
        available: u64,
    ) -> (result: Result<()>)
        requires
            blocks_hold_bytes(layouts@),
            self.options.compression == OutputCompression::Oodle ==> layouts@.len()
                == self.prepared.entries@.len(),
        ensures
            seen(result) == work_room(
                available,
                output_room(
                    self@.prepared.mount,
                    entry_sizes(self@.prepared.entries),
                    self@.options.compression,
                    layout_views(layouts@),
                    oodle_bounds@,
                    (if granularity == 0 {
                        1
                    } else {
                        granularity as int
                    }),
                    (if granularity == 0 {
                        1
                    } else {
                        granularity as int
                    }),
                ),
            ),
    {
        check_output_room(
            &self.prepared,
            self.options.compression,
            layouts,
            oodle_bounds,
            granularity,
            available,
        )
    }

    /// Decides what the archive writer is told to write.
    pub fn order(&self, opened: &Vec<OpenedPak>, oodle_failure: &Option<String>) -> (result: Result<
        WriteOrder,
    >)
        requires
            all_well_formed(opened@),
            self.well_formed(opened@.len()),
        ensures
            seen(result) == output_order(
                self@.prepared,
                views(opened@),
                self@.options.compression,
                text_view(*oodle_failure),
            ),
    {
        order_output(&self.prepared, opened, self.options.compression, oodle_failure)
    }

    /// Checks the archive that was written, and reports on the merge.
    pub fn finish(
        &self,
        archive: &PakArchive,
        sources: &Vec<(String, String)>,
        readings: Vec<Reading>,
        output_path: &str,
        output_size: u64,
        tool_version: &str,
    ) -> (result: Result<MergeReport>)
        requires
            self.resolutions.choices.well_formed(),
            archive.well_formed(),
        ensures
            seen(result) == finished_report(
                self@.plan,
                self@.resolutions,
                self@.prepared,
                archive@,
                digest_views(sources@),
                readings@,
                self@.options.compression,
                output_path@,
                output_size,
                tool_version@,
            ),
            result matches Ok(report) ==> ledgers_have_digests(report.raw_preservation_audits@),
    {
        finish_merge(
            &self.plan,
            &self.resolutions,
            &self.prepared,
            archive,
            sources,
            readings,
            self.options.compression,
            output_path,
            output_size,
            tool_version,
        )
    }
}

/// The file that an output replaces, where the place is one for an output.
pub open spec fn place_taken(place: OutputPlaceView, options: WriteOptions) -> Outcome<
    Option<OutputTargetStamp>,
> {
    match output_path_allowed(place.name) {
        Err(error) => Err(error),
        Ok(_) => captured_target(place.path, place.target, options.overwrite_existing),
    }
}

/// Checks that an output may go to a place, and yields the file that it replaces.
pub fn take_place(place: &OutputPlace, options: WriteOptions) -> (result: Result<
    Option<OutputTargetStamp>,
>)
    ensures
        match (result, place_taken(place@, options)) {
            (Ok(stamp), Ok(wanted)) => stamp == wanted,
            (Err(error), Err(wanted)) => error@ == wanted,
            _ => false,
        },
{
    match require_output_path(&place.name) {
        Ok(_) => {},
        Err(error) => {
            return Err(error);
        },
    }
    capture_output_target(place.path.as_str(), &place.target, options.overwrite_existing)
}

/// A settled job whose inputs are in order and whose databases are not yet merged.
#[derive(Debug)]
pub struct ReopenedMerge<'a> {
    pub plan: MergePlan,
    pub resolutions: ResolutionSet,
    pub opened: Vec<OpenedPak<'a>>,
    pub databases: OrderedMap<ParsedProviders>,
    pub existing_output: Option<OutputTargetStamp>,
    pub options: WriteOptions,
}

#[verifier::ext_equal]
pub struct ReopenedMergeView {
    pub plan: MergePlanView,
    pub resolutions: ResolutionSetView,
    pub opened: Seq<OpenedPakView>,
    pub databases: Seq<(Seq<char>, Seq<ParsedDbProviderView>)>,
    pub existing_output: Option<OutputTargetStamp>,
    pub options: WriteOptions,
}

impl<'a> View for ReopenedMerge<'a> {
    type V = ReopenedMergeView;

    open spec fn view(&self) -> ReopenedMergeView {
        ReopenedMergeView {
            plan: self.plan@,
            resolutions: self.resolutions@,
            opened: views(self.opened@),
            databases: self.databases@,
            existing_output: self.existing_output,
            options: self.options,
        }
    }
}

/// A resolved plan that may be written: its inputs are opened and analyzed again, and
/// must yield the same plan.
pub open spec fn write_reopened(
    resolved: ResolvedPlanView,
    place: OutputPlaceView,
    options: WriteOptions,
    inputs: ReopenedInputsView,
) -> Outcome<ReopenedMergeView> {
    let request = resolved.plan.request;
    match place_taken(place, options) {
        Err(error) => Err(error),
        Ok(existing_output) => match request_allowed(request, inputs.names, inputs.sizes) {
            Err(error) => Err(error),
            Ok(_) => match opened_in_order(request, inputs.names, inputs.archives) {
                Err(error) => Err(error),
                Ok(opened) => match analysis_of(
                    request,
                    opened,
                    inputs.detection,
                    inputs.readings,
                    inputs.steps_per_unit,
                ) {
                    Err(error) => Err(error),
                    Ok(current) => if current.plan.plan_id != resolved.plan.plan_id {
                        Err(MergeErrorView::InputChanged(request.carrier_path))
                    } else {
                        match resolutions_allowed(current.plan, resolved.resolutions) {
                            Err(error) => Err(error),
                            Ok(_) => match mistaken_input(opened, current.plan.inputs) {
                                Some(path) => Err(MergeErrorView::InputChanged(path)),
                                None => Ok(
                                    ReopenedMergeView {
                                        plan: current.plan,
                                        resolutions: adopted(current.plan, resolved.resolutions),
                                        opened,
                                        databases: current.databases,
                                        existing_output,
                                        options,
                                    },
                                ),
                            },
                        }
                    },
                },
            },
        },
    }
}

/// What is written of a reopened job.
pub open spec fn reopened_output(job: ReopenedMergeView, supplies: Seq<DatabaseSupply>) -> Outcome<
    StartedMergeView,
> {
    match settled_output(
        job.plan,
        job.resolutions,
        job.opened,
        job.databases,
        supplies,
        job.existing_output,
        job.options,
    ) {
        Err(error) => Err(error),
        Ok(merge) => Ok(StartedMergeView { merge, opened: job.opened }),
    }
}

/// The merge of a resolved plan.
pub open spec fn write_begun(
    resolved: ResolvedPlanView,
    place: OutputPlaceView,
    options: WriteOptions,
    inputs: ReopenedInputsView,
    supplies: Seq<DatabaseSupply>,
) -> Outcome<StartedMergeView> {
    match write_reopened(resolved, place, options, inputs) {
        Err(error) => Err(error),
        Ok(job) => reopened_output(job, supplies),
    }
}

impl<'a> ReopenedMerge<'a> {
    pub open spec fn well_formed(&self) -> bool {
        &&& self.resolutions.choices.well_formed()
        &&& all_well_formed(self.opened@)
        &&& self.databases.well_formed()
        &&& table_usable(self.databases@, self.opened@.len())
    }

    /// Decides the output. `supplies` holds what stands outside this library of each
    /// database that is merged.
    pub fn prepare(self, supplies: &Vec<DatabaseSupply>) -> (result: Result<StartedMerge<'a>>)
        requires
            self.well_formed(),
        ensures
            seen(result) == reopened_output(self@, supplies@),
            result matches Ok(started) ==> started.well_formed(),
    {
        let prepared = match prepare_output(
            &self.plan,
            &self.resolutions,
            &self.opened,
            &self.databases,
            supplies,
        ) {
            Ok(prepared) => prepared,
            Err(error) => {
                return Err(error);
            },
        };
        let merge = PreparedMerge {
            plan: self.plan,
            resolutions: self.resolutions,
            prepared,
            existing_output: self.existing_output,
            options: self.options,
        };
        Ok(StartedMerge { merge, opened: self.opened })
    }
}

/// Opens and analyzes the inputs of a resolved plan again, and binds the choices to
/// the plan.
pub fn reopen_resolved<'a>(
    resolved: ResolvedPlan,
    place: &OutputPlace,
    options: WriteOptions,
    inputs: ReopenedInputs<'a>,
) -> (result: Result<ReopenedMerge<'a>>)
    requires
        resolved.resolutions.choices.well_formed(),
        inputs.answer(resolved.plan.request.pak_paths@.len()),
    ensures
        seen(result) == write_reopened(resolved@, place@, options, inputs@),
        result matches Ok(job) ==> job.well_formed(),
{
    let existing_output = match take_place(place, options) {
        Ok(existing) => existing,
        Err(error) => {
            return Err(error);
        },
    };
    let request = &resolved.plan.request;
    match validate_request(request, &inputs.names, &inputs.sizes) {
        Ok(_) => {},
        Err(error) => {
            return Err(error);
        },
    }
    let opened = match open_paks(request, &inputs.names, inputs.archives) {
        Ok(opened) => opened,
        Err(error) => {
            return Err(error);
        },
    };
    let current = match analyze_opened(
        request.copy(),
        &opened,
        inputs.detection,
        inputs.readings,
        inputs.steps_per_unit,
    ) {
        Ok(current) => current,
        Err(error) => {
            return Err(error);
        },
    };
    if !same_text(current.plan.plan_id.as_str(), resolved.plan.plan_id.as_str()) {
        return Err(MergeError::InputChanged(resolved.plan.request.carrier_path));
    }
    let mut resolutions = resolved.resolutions;
    match validate_resolutions(&current.plan, &mut resolutions) {
        Ok(_) => {},
        Err(error) => {
            return Err(error);
        },
    }
    match verify_input_identities(&opened, &current.plan.inputs) {
        Ok(_) => {},
        Err(error) => {
            return Err(error);
        },
    }
    Ok(
        ReopenedMerge {
            plan: current.plan,
            resolutions,
            opened,
            databases: current.databases,
            existing_output,
            options,
        },
    )
}

/// Begins to write the merge of a resolved plan with the usual options.
pub fn write<'a>(
    resolved: ResolvedPlan,
    place: &OutputPlace,
    inputs: ReopenedInputs<'a>,
    supplies: &Vec<DatabaseSupply>,
) -> (result: Result<StartedMerge<'a>>)
    requires
        resolved.resolutions.choices.well_formed(),
        inputs.answer(resolved.plan.request.pak_paths@.len()),
    ensures
        seen(result) == write_begun(
            resolved@,
            place@,
            (WriteOptions {
                compression: OutputCompression::Uncompressed,
                multithreaded: true,
                overwrite_existing: false,
            }),
            inputs@,
            supplies@,
        ),
        result matches Ok(started) ==> started.well_formed(),
{
    write_with_options(resolved, place, WriteOptions::default(), inputs, supplies)
}

/// Begins to write the merge of a resolved plan.
pub fn write_with_options<'a>(
    resolved: ResolvedPlan,
    place: &OutputPlace,
    options: WriteOptions,
    inputs: ReopenedInputs<'a>,
    supplies: &Vec<DatabaseSupply>,
) -> (result: Result<StartedMerge<'a>>)
    requires
        resolved.resolutions.choices.well_formed(),
        inputs.answer(resolved.plan.request.pak_paths@.len()),
    ensures
        seen(result) == write_begun(resolved@, place@, options, inputs@, supplies@),
        result matches Ok(started) ==> started.well_formed(),
{
    write_with_options_and_progress(resolved, place, options, inputs, supplies)
}

/// Begins to write the merge of a resolved plan: opens and analyzes its inputs
/// again, binds the choices to the plan and decides the output. `supplies` holds
/// what stands outside this library of each database that is merged.
pub fn write_with_options_and_progress<'a>(
    resolved: ResolvedPlan,
    place: &OutputPlace,
    options: WriteOptions,
    inputs: ReopenedInputs<'a>,
    supplies: &Vec<DatabaseSupply>,
) -> (result: Result<StartedMerge<'a>>)
    requires
        resolved.resolutions.choices.well_formed(),
        inputs.answer(resolved.plan.request.pak_paths@.len()),
    ensures
        seen(result) == write_begun(resolved@, place@, options, inputs@, supplies@),
        result matches Ok(started) ==> started.well_formed(),
{
    match reopen_resolved(resolved, place, options, inputs) {
        Ok(job) => job.prepare(supplies),
        Err(error) => Err(error),
    }
}

/// The choices of a live session that may be written, and the file that its output
/// replaces: the inputs have stayed open, and their files as they were.
pub open spec fn session_settled(
    session: SessionView,
    resolutions: ResolutionSetView,
    place: OutputPlaceView,
    options: WriteOptions,
    stamps: Seq<Option<FileStamp>>,
) -> Outcome<(ResolutionSetView, Option<OutputTargetStamp>)> {
    match place_taken(place, options) {
        Err(error) => Err(error),
        Ok(existing) => match changed_input(session.opened, stamps) {
            Some(path) => Err(MergeErrorView::InputChanged(path)),
            None => match resolutions_allowed(session.plan, resolutions) {
                Err(error) => Err(error),
                Ok(_) => Ok((adopted(session.plan, resolutions), existing)),
            },
        },
    }
}

/// The merge of a live session, whose inputs have stayed open: nothing is opened,
/// read or analyzed again.
pub open spec fn session_written(
    session: SessionView,
    resolutions: ResolutionSetView,
    place: OutputPlaceView,
    options: WriteOptions,
    stamps: Seq<Option<FileStamp>>,
    supplies: Seq<DatabaseSupply>,
) -> Outcome<PreparedMergeView> {
    match session_settled(session, resolutions, place, options, stamps) {
        Err(error) => Err(error),
        Ok((resolutions, existing)) => settled_output(
            session.plan,
            resolutions,
            session.opened,
            session.parsed_databases,
            supplies,
            existing,
            options,
        ),
    }
}

/// Checks that a live session may be written, and binds the choices to its plan.
/// `stamps` tells of the files of its inputs.
pub fn settle_session(
    session: &MergeAnalysisSession,
    resolutions: ResolutionSet,
    place: &OutputPlace,
    options: WriteOptions,
    stamps: &Vec<Option<FileStamp>>,
) -> (result: Result<(ResolutionSet, Option<OutputTargetStamp>)>)
    requires
        session.well_formed(),
        resolutions.choices.well_formed(),
        stamps@.len() == session.opened@.len(),
    ensures
        match (result, session_settled(session@, resolutions@, place@, options, stamps@)) {
            (Ok(settled), Ok(wanted)) => settled.0@ == wanted.0 && settled.1 == wanted.1
                && settled.0.choices.well_formed(),
            (Err(error), Err(wanted)) => error@ == wanted,
            _ => false,
        },
{
    let existing_output = match take_place(place, options) {
        Ok(existing) => existing,
        Err(error) => {
            return Err(error);
        },
    };
    match verify_session_input_stamps(&session.opened, stamps) {
        Ok(_) => {},
        Err(error) => {
            return Err(error);
        },
    }
    let mut resolutions = resolutions;
    match validate_resolutions(session.plan(), &mut resolutions) {
        Ok(_) => {},
        Err(error) => {
            return Err(error);
        },
    }
    Ok((resolutions, existing_output))
}

/// Begins to write the merge of a live session. `stamps` tells of the files of its
/// inputs, and `supplies` holds what stands outside this library of each database
/// that is merged.
pub fn write_session_with_options_and_progress(
    session: &MergeAnalysisSession,
    resolutions: ResolutionSet,
    place: &OutputPlace,
    options: WriteOptions,
    stamps: &Vec<Option<FileStamp>>,
    supplies: &Vec<DatabaseSupply>,
) -> (result: Result<PreparedMerge>)
    requires
        session.well_formed(),
        resolutions.choices.well_formed(),
        stamps@.len() == session.opened@.len(),
    ensures
        seen(result) == session_written(
            session@,
            resolutions@,
            place@,
            options,
            stamps@,
            supplies@,
        ),
        result matches Ok(merge) ==> merge.well_formed(session.opened@.len()),
{
    write_session_with_options_progress_and_cancel(
        session,
        resolutions,
        place,
        options,
        stamps,
        supplies,
        false,
    )
}

/// Begins to write the merge of a live session, unless it was cancelled.
pub fn write_session_with_options_progress_and_cancel(
    session: &MergeAnalysisSession,
    resolutions: ResolutionSet,
    place: &OutputPlace,
    options: WriteOptions,
    stamps: &Vec<Option<FileStamp>>,
    supplies: &Vec<DatabaseSupply>,
    cancelled: bool,
) -> (result: Result<PreparedMerge>)
    requires
        session.well_formed(),
        resolutions.choices.well_formed(),
        stamps@.len() == session.opened@.len(),
    ensures
        seen(result) == (if cancelled {
            Err::<PreparedMergeView, MergeErrorView>(MergeErrorView::Cancelled)
        } else {
            session_written(session@, resolutions@, place@, options, stamps@, supplies@)
        }),
        result matches Ok(merge) ==> merge.well_formed(session.opened@.len()),
{
    match check_cancel(cancelled) {
        Ok(_) => {},
        Err(error) => {
            return Err(error);
        },
    }
    let (resolutions, existing_output) = match settle_session(
        session,
        resolutions,
        place,
        options,
        stamps,
    ) {
        Ok(settled) => settled,
        Err(error) => {
            return Err(error);
        },
    };
    let plan = session.plan();
    let prepared = match prepare_output(
        plan,
        &resolutions,
        &session.opened,
        &session.parsed_databases,
        supplies,
    ) {
        Ok(prepared) => prepared,
        Err(error) => {
            return Err(error);
        },
    };
    Ok(
        PreparedMerge {
            plan: plan.copy(),
            resolutions,
            prepared,
            existing_output,
            options,
        },
    )
}

/// The report that an input is being checked.
pub fn checking_inputs(completed: usize, total: usize, path: &str) -> (result: MergeProgress)
    ensures
        result@ == (MergeProgressView {
            stage: MergeProgressStage::CheckingInputs,
            completed: completed as u64,
            total: total as u64,
            current_item: Some(path@),
        }),
{
    MergeProgress {
        stage: MergeProgressStage::CheckingInputs,
        completed: completed as u64,
        total: total as u64,
        current_item: Some(path.to_owned()),
    }
}

/// The report on a stage that is one step: that it has begun, or that it is done.
pub fn single_step(stage: MergeProgressStage, done: bool) -> (result: MergeProgress)
    ensures
        result@ == (MergeProgressView {
            stage,
            completed: (if done {
                1
            } else {
                0
            }),
            total: 1,
            current_item: None,
        }),
{
    MergeProgress {
        stage,
        completed: if done {
            1
        } else {
            0
        },
        total: 1,
        current_item: None,
    }
}

/// The report that the output of an asset is being decided; behind the last asset,
/// that all are.
pub fn preparing_files(plan: &MergePlan, at: usize) -> (result: MergeProgress)
    requires
        at <= plan.assets@.len(),
    ensures
        result@ == (MergeProgressView {
            stage: MergeProgressStage::PreparingFiles,
            completed: at as u64,
            total: plan@.assets.len() as u64,
            current_item: (if at < plan@.assets.len() {
                Some(plan@.assets[at as int].virtual_path)
            } else {
                None
            }),
        }),
{
    assert(plan@.assets.len() == plan.assets@.len());
    let current_item = if at < plan.assets.len() {
        assert(plan@.assets[at as int] == plan.assets@[at as int]@);
        Some(plan.assets[at].virtual_path.clone())
    } else {
        None
    };
    MergeProgress {
        stage: MergeProgressStage::PreparingFiles,
        completed: at as u64,
        total: plan.assets.len() as u64,
        current_item,
    }
}

/// The report that this many bytes of the output have been copied to its place.
pub fn copying_output(copied: u64, output_size: u64, path: &str) -> (result: MergeProgress)
    ensures
        ({
            let total = if output_size == 0 {
                1
            } else {
                output_size
            };
            result@ == (MergeProgressView {
                stage: MergeProgressStage::Finalizing,
                completed: (if copied < total {
                    copied
                } else {
                    total
                }),
                total,
                current_item: Some(path@),
            })
        }),
{
    let total: u64 = if output_size == 0 {
        1
    } else {
        output_size
    };
    MergeProgress {
        stage: MergeProgressStage::Finalizing,
        completed: if copied < total {
            copied
        } else {
            total
        },
        total,
        current_item: Some(path.to_owned()),
    }
}

/// The report that the output is put in place: one step where it is moved there,
/// all its bytes where it is copied.
pub fn finalizing(direct_install: bool, output_size: u64, done: bool, path: &str) -> (result:
    MergeProgress)
    ensures
        ({
            let total = if direct_install || output_size == 0 {
                1
            } else {
                output_size
            };
            result@ == (MergeProgressView {
                stage: MergeProgressStage::Finalizing,
                completed: (if done {
                    total
                } else {
                    0
                }),
                total,
                current_item: (if done {
                    None
                } else {
                    Some(path@)
                }),
            })
        }),
{
    let total: u64 = if direct_install || output_size == 0 {
        1
    } else {
        output_size
    };
    if done {
        MergeProgress {
            stage: MergeProgressStage::Finalizing,
            completed: total,
            total,
            current_item: None,
        }
    } else {
        MergeProgress {
            stage: MergeProgressStage::Finalizing,
            completed: 0,
            total,
            current_item: Some(path.to_owned()),
        }
    }
}

} // verus!
