//! What holds of every plan, and of a job that is done again: plans stand in order,
//! and the same inputs and choices yield the same plan, the same files and the same
//! audits.
use vstd::prelude::*;

use super::analyze::{
    analysis_of, by_conflict_id, by_path, gathered, gathered_from, outdated_entries,
    profile_warnings, with_output, GatheredView,
};
use super::conflicts::MAX_PLAN_CONFLICTS;
use super::database::Reading;
use super::error::MergeErrorView;
use super::ids::folded;
use super::opened::{
    opened_at, opened_by_path, opened_in_order, FileStamp, InputArchiveView, OpenedPakView,
};
use super::output::{output_order, DatabaseSupply, PreparedOutputView};
use super::report::{finished_report, fresh_reports_pass};
use super::request::PathNameView;
use super::session::{analyzed, session_of, SessionView};
use super::types::{
    AnalysisRequestView, AssetPlanView, ConflictView, MergePlanView, MergeReportView,
    ProfileDetectionView, ResolutionSetView, ResolvedPlanView, WriteOptions,
};
use super::units::{outputs_from, units_of, AnalysisUnitOutputView};
use super::verify::verification;
use super::write::{
    session_written, write_begun, write_reopened, OutputPlaceView, PreparedMergeView,
    ReopenedInputsView,
};
use crate::ordered::values;
use crate::pak::access::verified_output;
use crate::pak::archive::{LogicalValidation, OutsideReadingView};
use crate::pak::error::PakErrorView;
use crate::pak::footer::SUPPORTED_PAK_VERSION;
use crate::pak::layout::keeping_contents_does_not_matter;
use crate::pak::open::{opened, PakArchiveView};
use crate::pak::write::{OutputCompression, WriteOrderView};
use crate::sorting::{distinct_is_the_set, sorted, sorted_is_an_ordering};
use crate::text::text_less;

verus! {

/// The assets of a plan stand in the order of their keys.
pub open spec fn assets_in_order(assets: Seq<AssetPlanView>) -> bool {
    forall|i: int, j: int|
        0 <= i < j < assets.len() ==> !text_less(
            folded((#[trigger] assets[j]).virtual_path),
            folded((#[trigger] assets[i]).virtual_path),
        )
}

/// The conflicts of a plan stand in the order of their ids.
pub open spec fn conflicts_in_order(conflicts: Seq<ConflictView>) -> bool {
    forall|i: int, j: int|
        0 <= i < j < conflicts.len() ==> !text_less(
            (#[trigger] conflicts[j]).id,
            (#[trigger] conflicts[i]).id,
        )
}

/// The texts ascend, so that none of them occurs twice.
pub open spec fn texts_ascend(list: Seq<Seq<char>>) -> bool {
    forall|i: int, j: int|
        0 <= i < j < list.len() ==> text_less(#[trigger] list[i], #[trigger] list[j])
}

/// What holds of a plan as a whole.
pub open spec fn orderly(plan: MergePlanView) -> bool {
    &&& assets_in_order(plan.assets)
    &&& conflicts_in_order(plan.conflicts)
    &&& texts_ascend(plan.warnings)
    &&& plan.conflicts.len() <= MAX_PLAN_CONFLICTS
    &&& plan.full_reencode_forbidden
}

proof fn sorted_assets_stand_in_order(assets: Seq<AssetPlanView>)
    ensures
        assets_in_order(values(sorted(by_path(assets)))),
{
    broadcast use vstd::seq_lib::group_to_multiset_ensures;

    let all = by_path(assets);
    let found = sorted(all);
    sorted_is_an_ordering(all);
    assert forall|i: int| 0 <= i < found.len() implies (#[trigger] found[i]).0 == folded(
        found[i].1.virtual_path,
    ) by {
        assert(found.contains(found[i]));
        assert(all.to_multiset().count(found[i]) > 0);
        assert(all.contains(found[i]));
    }
    let list = values(found);
    assert forall|i: int, j: int| 0 <= i < j < list.len() implies !text_less(
        folded((#[trigger] list[j]).virtual_path),
        folded((#[trigger] list[i]).virtual_path),
    ) by {
        assert(!text_less(found[j].0, found[i].0));
    }
}

proof fn sorted_conflicts_stand_in_order(conflicts: Seq<ConflictView>)
    ensures
        conflicts_in_order(values(sorted(by_conflict_id(conflicts)))),
        values(sorted(by_conflict_id(conflicts))).len() == conflicts.len(),
{
    broadcast use vstd::seq_lib::group_to_multiset_ensures;

    let all = by_conflict_id(conflicts);
    let found = sorted(all);
    sorted_is_an_ordering(all);
    assert forall|i: int| 0 <= i < found.len() implies (#[trigger] found[i]).0 == found[i].1.id by {
        assert(found.contains(found[i]));
        assert(all.to_multiset().count(found[i]) > 0);
        assert(all.contains(found[i]));
    }
    let list = values(found);
    assert forall|i: int, j: int| 0 <= i < j < list.len() implies !text_less(
        (#[trigger] list[j]).id,
        (#[trigger] list[i]).id,
    ) by {
        assert(!text_less(found[j].0, found[i].0));
    }
}

proof fn gathered_conflicts_are_few(state: GatheredView, outputs: Seq<AnalysisUnitOutputView>)
    requires
        state.conflicts.len() <= MAX_PLAN_CONFLICTS,
    ensures
        gathered_from(state, outputs) matches Ok(found) ==> found.conflicts.len()
            <= MAX_PLAN_CONFLICTS,
    decreases outputs.len(),
{
    if outputs.len() > 0 {
        match with_output(state, outputs[0]) {
            Err(_) => {},
            Ok(next) => {
                gathered_conflicts_are_few(next, outputs.skip(1));
            },
        }
    }
}

proof fn analyses_are_orderly(
    request: AnalysisRequestView,
    opened: Seq<OpenedPakView>,
    detection: ProfileDetectionView,
    readings: Seq<Vec<Reading>>,
    steps_per_unit: int,
)
    ensures
        analysis_of(request, opened, detection, readings, steps_per_unit) matches Ok(found)
            ==> orderly(found.plan),
{
    match analysis_of(request, opened, detection, readings, steps_per_unit) {
        Err(_) => {},
        Ok(found) => {
            let carrier = opened_at(opened, request.carrier_path)->0;
            let outputs = outputs_from(
                Seq::empty(),
                opened,
                units_of(opened),
                carrier as usize,
                readings,
                0,
            )->Ok_0;
            let warnings = outdated_entries(opened) + profile_warnings(detection);
            let sum = gathered(warnings, outputs)->Ok_0;
            gathered_conflicts_are_few(
                GatheredView {
                    assets: Seq::empty(),
                    conflicts: Seq::empty(),
                    warnings,
                    databases: Seq::empty(),
                    cached_bytes: 0,
                },
                outputs,
            );
            sorted_assets_stand_in_order(sum.assets);
            sorted_conflicts_stand_in_order(sum.conflicts);
            distinct_is_the_set(sum.warnings, Seq::empty());
        },
    }
}

/// Every plan stands in order: its assets by their paths, letter case aside, its
/// conflicts by their ids, its warnings without repetition; it holds no more
/// conflicts than it may; and it forbids that databases are encoded anew.
pub proof fn plans_are_orderly(
    request: AnalysisRequestView,
    names: Seq<PathNameView>,
    sizes: Seq<std::result::Result<u64, Seq<char>>>,
    archives: Seq<InputArchiveView>,
    detection: ProfileDetectionView,
    readings: Seq<Vec<Reading>>,
    steps_per_unit: int,
)
    ensures
        analyzed(request, names, sizes, archives, detection, readings, steps_per_unit) matches Ok(
            found,
        ) ==> orderly(found.plan),
        session_of(request, names, archives, detection, readings, steps_per_unit) matches Ok(found)
            ==> orderly(found.plan),
{
    match opened_in_order(request, names, archives) {
        Ok(opened) => {
            analyses_are_orderly(request, opened, detection, readings, steps_per_unit);
        },
        Err(_) => {},
    }
    match opened_by_path(request, names, archives) {
        Ok(opened) => {
            analyses_are_orderly(request, opened, detection, readings, steps_per_unit);
        },
        Err(_) => {},
    }
}

/// An archive as it stands in a file: its path and its bytes, with what the outside
/// readers make of them.
#[verifier::ext_equal]
pub struct PakFileView {
    pub path: Seq<char>,
    pub bytes: Seq<u8>,
    pub outside: OutsideReadingView,
    pub modified: Option<i128>,
    pub stamp: Option<FileStamp>,
}

/// The archives are what the files hold, opened with the same checks.
pub open spec fn opened_from(
    archives: Seq<InputArchiveView>,
    files: Seq<PakFileView>,
    validation: LogicalValidation,
) -> bool {
    &&& archives.len() == files.len()
    &&& forall|i: int|
        0 <= i < files.len() ==> {
            &&& opened(
                (#[trigger] files[i]).path,
                files[i].bytes,
                validation,
                files[i].outside,
            ) == Ok::<PakArchiveView, PakErrorView>(archives[i].archive)
            &&& archives[i].source_modified == files[i].modified
            &&& archives[i].stamp == files[i].stamp
        }
}

/// As long as the files of a request stay as they are, every analysis of it yields
/// the same plan, with the same id, the same conflicts and the same warnings; or it
/// fails alike.
pub proof fn unchanged_files_give_the_same_plan(
    request: AnalysisRequestView,
    names: Seq<PathNameView>,
    sizes: Seq<std::result::Result<u64, Seq<char>>>,
    files: Seq<PakFileView>,
    validation: LogicalValidation,
    first: Seq<InputArchiveView>,
    second: Seq<InputArchiveView>,
    detection: ProfileDetectionView,
    readings: Seq<Vec<Reading>>,
    steps_per_unit: int,
)
    requires
        opened_from(first, files, validation),
        opened_from(second, files, validation),
    ensures
        analyzed(request, names, sizes, first, detection, readings, steps_per_unit) == analyzed(
            request,
            names,
            sizes,
            second,
            detection,
            readings,
            steps_per_unit,
        ),
{
    assert forall|i: int| 0 <= i < first.len() implies first[i] == second[i] by {
        assert(opened(files[i].path, files[i].bytes, validation, files[i].outside) is Ok);
    }
    assert(first =~= second);
}

/// Where an output goes, what stands there and how many threads work decides
/// nothing of it: two writes of one resolved plan with the same compression hand the
/// same files, in the same order and with the same pending audits, to the archive
/// writer.
pub proof fn the_place_does_not_decide_the_output(
    resolved: ResolvedPlanView,
    inputs: ReopenedInputsView,
    supplies: Seq<DatabaseSupply>,
    first_place: OutputPlaceView,
    first_options: WriteOptions,
    second_place: OutputPlaceView,
    second_options: WriteOptions,
    oodle_failure: Option<Seq<char>>,
)
    requires
        first_options.compression == second_options.compression,
    ensures
        match (
            write_begun(resolved, first_place, first_options, inputs, supplies),
            write_begun(resolved, second_place, second_options, inputs, supplies),
        ) {
            (Ok(first), Ok(second)) => {
                &&& first.opened == second.opened
                &&& first.merge.plan == second.merge.plan
                &&& first.merge.resolutions == second.merge.resolutions
                &&& first.merge.prepared == second.merge.prepared
                &&& output_order(
                    first.merge.prepared,
                    first.opened,
                    first.merge.options.compression,
                    oodle_failure,
                ) == output_order(
                    second.merge.prepared,
                    second.opened,
                    second.merge.options.compression,
                    oodle_failure,
                )
            },
            _ => true,
        },
{
}

/// The same holds of two writes of a live session.
pub proof fn the_place_does_not_decide_the_output_of_a_session(
    session: SessionView,
    resolutions: ResolutionSetView,
    supplies: Seq<DatabaseSupply>,
    stamps: Seq<Option<FileStamp>>,
    first_place: OutputPlaceView,
    first_options: WriteOptions,
    second_place: OutputPlaceView,
    second_options: WriteOptions,
)
    ensures
        match (
            session_written(session, resolutions, first_place, first_options, stamps, supplies),
            session_written(session, resolutions, second_place, second_options, stamps, supplies),
        ) {
            (Ok(first), Ok(second)) => {
                &&& first.plan == second.plan
                &&& first.resolutions == second.resolutions
                &&& first.prepared == second.prepared
            },
            _ => true,
        },
{
}

/// Two outputs that hold the same bytes are reported on with the same digest and the
/// same audits, wherever they stand and whenever the reports were made.
pub proof fn equal_outputs_have_equal_audits(
    plan: MergePlanView,
    resolutions: ResolutionSetView,
    prepared: PreparedOutputView,
    sources: Seq<(Seq<char>, Seq<char>)>,
    bytes: Seq<u8>,
    validation: LogicalValidation,
    outside: OutsideReadingView,
    compression: OutputCompression,
    first_file: Seq<char>,
    first_path: Seq<char>,
    first_archive: PakArchiveView,
    first_readings: Seq<Reading>,
    first_size: u64,
    first_version: Seq<char>,
    first: MergeReportView,
    second_file: Seq<char>,
    second_path: Seq<char>,
    second_archive: PakArchiveView,
    second_readings: Seq<Reading>,
    second_size: u64,
    second_version: Seq<char>,
    second: MergeReportView,
)
    requires
        validation.strict(),
        opened(first_file, bytes, validation, outside) == Ok::<
            PakArchiveView,
            PakErrorView,
        >(first_archive),
        opened(second_file, bytes, validation, outside) == Ok::<
            PakArchiveView,
            PakErrorView,
        >(second_archive),
        finished_report(
            plan,
            resolutions,
            prepared,
            first_archive,
            sources,
            first_readings,
            compression,
            first_path,
            first_size,
            first_version,
        ) == Ok::<MergeReportView, MergeErrorView>(first),
        finished_report(
            plan,
            resolutions,
            prepared,
            second_archive,
            sources,
            second_readings,
            compression,
            second_path,
            second_size,
            second_version,
        ) == Ok::<MergeReportView, MergeErrorView>(second),
    ensures
        first.output_sha256 == second.output_sha256,
        first.raw_preservation_audits == second.raw_preservation_audits,
        first.final_inventory == second.final_inventory,
{
    keeping_contents_does_not_matter(first_file, validation, second_file, bytes, outside);
    keeping_contents_does_not_matter(second_file, validation, second_file, bytes, outside);
}

/// What was made of a merge once its output was decided: the order that went to the
/// archive writer, the archive that came back from it, and the report on that archive.
#[verifier::ext_equal]
pub struct CarriedOutView {
    pub order: WriteOrderView,
    /// The path under which the archive was opened and checked.
    pub file: Seq<char>,
    pub archive: PakArchiveView,
    pub readings: Seq<Reading>,
    pub output_path: Seq<char>,
    pub output_size: u64,
    pub tool_version: Seq<char>,
    pub report: MergeReportView,
}

/// A merge was carried out. `writer` is what the archive writer makes of an order with
/// a compression, and `reader` what the outside reader and the decoders make of the
/// bytes of an archive.
pub open spec fn carried_out(
    merge: PreparedMergeView,
    opened_paks: Seq<OpenedPakView>,
    oodle_failure: Option<Seq<char>>,
    writer: spec_fn(WriteOrderView, OutputCompression) -> Seq<u8>,
    reader: spec_fn(Seq<u8>) -> OutsideReadingView,
    job: CarriedOutView,
) -> bool {
    let bytes = writer(job.order, merge.options.compression);
    &&& output_order(
        merge.prepared,
        opened_paks,
        merge.options.compression,
        oodle_failure,
    ) matches Ok(order) && order == job.order
    &&& opened(
        job.file,
        bytes,
        LogicalValidation::StrictDiscard,
        reader(bytes),
    ) matches Ok(archive) && archive == job.archive
    &&& finished_report(
        merge.plan,
        merge.resolutions,
        merge.prepared,
        job.archive,
        job.order.source_sha256,
        job.readings,
        merge.options.compression,
        job.output_path,
        job.output_size,
        job.tool_version,
    ) matches Ok(report) && report == job.report
}

proof fn equal_merges_give_equal_outputs(
    first: PreparedMergeView,
    second: PreparedMergeView,
    opened_paks: Seq<OpenedPakView>,
    oodle_failure: Option<Seq<char>>,
    writer: spec_fn(WriteOrderView, OutputCompression) -> Seq<u8>,
    reader: spec_fn(Seq<u8>) -> OutsideReadingView,
    first_job: CarriedOutView,
    second_job: CarriedOutView,
)
    requires
        first.plan == second.plan,
        first.resolutions == second.resolutions,
        first.prepared == second.prepared,
        first.options.compression == second.options.compression,
        carried_out(first, opened_paks, oodle_failure, writer, reader, first_job),
        carried_out(second, opened_paks, oodle_failure, writer, reader, second_job),
    ensures
        first_job.order == second_job.order,
        first_job.report.output_sha256 == second_job.report.output_sha256,
        first_job.report.raw_preservation_audits == second_job.report.raw_preservation_audits,
        first_job.report.final_inventory == second_job.report.final_inventory,
{
    let bytes = writer(first_job.order, first.options.compression);
    equal_outputs_have_equal_audits(
        first.plan,
        first.resolutions,
        first.prepared,
        first_job.order.source_sha256,
        bytes,
        LogicalValidation::StrictDiscard,
        reader(bytes),
        first.options.compression,
        first_job.file,
        first_job.output_path,
        first_job.archive,
        first_job.readings,
        first_job.output_size,
        first_job.tool_version,
        first_job.report,
        second_job.file,
        second_job.output_path,
        second_job.archive,
        second_job.readings,
        second_job.output_size,
        second_job.tool_version,
        second_job.report,
    );
}

/// Two writes of one resolved plan with the same compression are reported on with the
/// same digest of the output, the same audits and the same files, wherever the outputs
/// go and whenever they are written.
pub proof fn two_writes_give_equal_outputs(
    resolved: ResolvedPlanView,
    inputs: ReopenedInputsView,
    supplies: Seq<DatabaseSupply>,
    first_place: OutputPlaceView,
    first_options: WriteOptions,
    second_place: OutputPlaceView,
    second_options: WriteOptions,
    oodle_failure: Option<Seq<char>>,
    writer: spec_fn(WriteOrderView, OutputCompression) -> Seq<u8>,
    reader: spec_fn(Seq<u8>) -> OutsideReadingView,
    first: CarriedOutView,
    second: CarriedOutView,
)
    requires
        first_options.compression == second_options.compression,
        write_begun(resolved, first_place, first_options, inputs, supplies) matches Ok(started)
            && carried_out(started.merge, started.opened, oodle_failure, writer, reader, first),
        write_begun(resolved, second_place, second_options, inputs, supplies) matches Ok(started)
            && carried_out(started.merge, started.opened, oodle_failure, writer, reader, second),
    ensures
        first.order == second.order,
        first.report.output_sha256 == second.report.output_sha256,
        first.report.raw_preservation_audits == second.report.raw_preservation_audits,
        first.report.final_inventory == second.report.final_inventory,
{
    let one = write_begun(resolved, first_place, first_options, inputs, supplies)->Ok_0;
    let other = write_begun(resolved, second_place, second_options, inputs, supplies)->Ok_0;
    the_place_does_not_decide_the_output(
        resolved,
        inputs,
        supplies,
        first_place,
        first_options,
        second_place,
        second_options,
        oodle_failure,
    );
    equal_merges_give_equal_outputs(
        one.merge,
        other.merge,
        one.opened,
        oodle_failure,
        writer,
        reader,
        first,
        second,
    );
}

/// The same holds of two writes of a live session.
pub proof fn two_writes_of_a_session_give_equal_outputs(
    session: SessionView,
    resolutions: ResolutionSetView,
    supplies: Seq<DatabaseSupply>,
    stamps: Seq<Option<FileStamp>>,
    first_place: OutputPlaceView,
    first_options: WriteOptions,
    second_place: OutputPlaceView,
    second_options: WriteOptions,
    oodle_failure: Option<Seq<char>>,
    writer: spec_fn(WriteOrderView, OutputCompression) -> Seq<u8>,
    reader: spec_fn(Seq<u8>) -> OutsideReadingView,
    first: CarriedOutView,
    second: CarriedOutView,
)
    requires
        first_options.compression == second_options.compression,
        session_written(session, resolutions, first_place, first_options, stamps, supplies) matches Ok(
            merge,
        ) && carried_out(merge, session.opened, oodle_failure, writer, reader, first),
        session_written(session, resolutions, second_place, second_options, stamps, supplies) matches Ok(
            merge,
        ) && carried_out(merge, session.opened, oodle_failure, writer, reader, second),
    ensures
        first.order == second.order,
        first.report.output_sha256 == second.report.output_sha256,
        first.report.raw_preservation_audits == second.report.raw_preservation_audits,
        first.report.final_inventory == second.report.final_inventory,
{
    let one = session_written(
        session,
        resolutions,
        first_place,
        first_options,
        stamps,
        supplies,
    )->Ok_0;
    let other = session_written(
        session,
        resolutions,
        second_place,
        second_options,
        stamps,
        supplies,
    )->Ok_0;
    equal_merges_give_equal_outputs(
        one,
        other,
        session.opened,
        oodle_failure,
        writer,
        reader,
        first,
        second,
    );
}

/// A merge that was carried out with a writer of version 11 passes the verification of
/// its output: it is found valid, without an error and without a warning, and with the
/// digest that was reported.
pub proof fn written_merges_verify(
    resolved: ResolvedPlanView,
    inputs: ReopenedInputsView,
    supplies: Seq<DatabaseSupply>,
    place: OutputPlaceView,
    options: WriteOptions,
    oodle_failure: Option<Seq<char>>,
    writer: spec_fn(WriteOrderView, OutputCompression) -> Seq<u8>,
    reader: spec_fn(Seq<u8>) -> OutsideReadingView,
    job: CarriedOutView,
)
    requires
        write_begun(resolved, place, options, inputs, supplies) matches Ok(started) && carried_out(
            started.merge,
            started.opened,
            oodle_failure,
            writer,
            reader,
            job,
        ),
        job.archive.inventory.footer.version == SUPPORTED_PAK_VERSION,
        job.archive.inventory.entries.len() <= usize::MAX,
    ensures
        ({
            let bytes = writer(job.order, options.compression);
            let found = verification(
                verified_output(job.output_path, bytes, reader(bytes), None),
                Some(job.report),
            );
            &&& found.valid
            &&& found.errors == Seq::<Seq<char>>::empty()
            &&& found.warnings == Seq::<Seq<char>>::empty()
            &&& found.pak_sha256 == job.report.output_sha256
        }),
{
    let again = write_reopened(resolved, place, options, inputs)->Ok_0;
    let started = write_begun(resolved, place, options, inputs, supplies)->Ok_0;
    let bytes = writer(job.order, options.compression);
    fresh_reports_pass(
        again.plan,
        again.resolutions,
        again.opened,
        again.databases,
        supplies,
        started.merge.prepared,
        job.file,
        bytes,
        LogicalValidation::StrictDiscard,
        reader(bytes),
        job.archive,
        job.order.source_sha256,
        job.readings,
        options.compression,
        job.output_path,
        job.output_size,
        job.tool_version,
        job.report,
    );
}

/// The same holds of a merge that was written from a live session.
pub proof fn written_sessions_verify(
    session: SessionView,
    resolutions: ResolutionSetView,
    supplies: Seq<DatabaseSupply>,
    stamps: Seq<Option<FileStamp>>,
    place: OutputPlaceView,
    options: WriteOptions,
    oodle_failure: Option<Seq<char>>,
    writer: spec_fn(WriteOrderView, OutputCompression) -> Seq<u8>,
    reader: spec_fn(Seq<u8>) -> OutsideReadingView,
    job: CarriedOutView,
)
    requires
        session_written(session, resolutions, place, options, stamps, supplies) matches Ok(merge)
            && carried_out(merge, session.opened, oodle_failure, writer, reader, job),
        job.archive.inventory.footer.version == SUPPORTED_PAK_VERSION,
        job.archive.inventory.entries.len() <= usize::MAX,
    ensures
        ({
            let bytes = writer(job.order, options.compression);
            let found = verification(
                verified_output(job.output_path, bytes, reader(bytes), None),
                Some(job.report),
            );
            &&& found.valid
            &&& found.errors == Seq::<Seq<char>>::empty()
            &&& found.warnings == Seq::<Seq<char>>::empty()
            &&& found.pak_sha256 == job.report.output_sha256
        }),
{
    let merge = session_written(session, resolutions, place, options, stamps, supplies)->Ok_0;
    let bytes = writer(job.order, options.compression);
    fresh_reports_pass(
        merge.plan,
        merge.resolutions,
        session.opened,
        session.parsed_databases,
        supplies,
        merge.prepared,
        job.file,
        bytes,
        LogicalValidation::StrictDiscard,
        reader(bytes),
        job.archive,
        job.order.source_sha256,
        job.readings,
        options.compression,
        job.output_path,
        job.output_size,
        job.tool_version,
        job.report,
    );
}

} // verus!
