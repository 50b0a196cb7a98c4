//! Analyses that stay at hand until the merged Pak is written.
use std::sync::Arc;

use vstd::prelude::*;

use super::analyze::{analysis_of, analyze_opened, table_usable, AnalysisView, ParsedProviders};
use super::database::{ParsedDbProviderView, Reading};
use super::error::{check_cancel, seen, MergeErrorView, Outcome, Result};
use super::opened::{
    all_well_formed, archives_well_formed, open_paks, opened_by_path, opened_from_archives,
    opened_in_order, InputArchive, InputArchiveView, OpenedPak, OpenedPakView,
};
use super::request::{
    cached_request_allowed, request_allowed, size_views, validate_cached_request,
    validate_request, FileSize, PathName, PathNameView,
};
use super::types::{
    AnalysisRequest, AnalysisRequestView, MergePlan, MergePlanView, ProfileDetection,
    ProfileDetectionView,
};
use super::units::all_readings_well;
use crate::lists::views;
use crate::ordered::OrderedMap;

verus! {

/// An analyzed job: its plan, its inputs and the databases that were read for it.
#[derive(Debug)]
pub struct MergeAnalysisSession<'a> {
    pub plan: Arc<MergePlan>,
    pub opened: Vec<OpenedPak<'a>>,
    pub parsed_databases: OrderedMap<ParsedProviders>,
    pub cached_database_bytes: u64,
}

#[verifier::ext_equal]
pub struct SessionView {
    pub plan: MergePlanView,
    pub opened: Seq<OpenedPakView>,
    pub parsed_databases: Seq<(Seq<char>, Seq<ParsedDbProviderView>)>,
    pub cached_database_bytes: u64,
}

impl<'a> View for MergeAnalysisSession<'a> {
    type V = SessionView;

    open spec fn view(&self) -> SessionView {
        SessionView {
            plan: (*self.plan)@,
            opened: views(self.opened@),
            parsed_databases: self.parsed_databases@,
            cached_database_bytes: self.cached_database_bytes,
        }
    }
}

/// Another handle to a shared plan, by `Arc::clone`: it leads to the same plan.
#[verifier::external_body]
fn share_plan(plan: &Arc<MergePlan>) -> (result: Arc<MergePlan>)
    ensures
        result == *plan,
{
    Arc::clone(plan)
}

impl<'a> MergeAnalysisSession<'a> {
    /// The inputs are in order, and the databases name inputs of the session.
    pub open spec fn well_formed(&self) -> bool {
        &&& all_well_formed(self.opened@)
        &&& self.parsed_databases.well_formed()
        &&& table_usable(self.parsed_databases@, self.opened@.len())
    }

    pub fn plan(&self) -> (result: &MergePlan)
        ensures
            result@ == self@.plan,
    {
        &self.plan
    }

    /// The plan, shared and not copied.
    pub fn shared_plan(&self) -> (result: Arc<MergePlan>)
        ensures
            result == self.plan,
    {
        share_plan(&self.plan)
    }

    /// How many bytes of databases the session refers to.
    pub fn cached_database_bytes(&self) -> (result: u64)
        ensures
            result == self@.cached_database_bytes,
    {
        self.cached_database_bytes
    }
}

/// The analysis of a request whose archives come in the order of its paths.
pub open spec fn analyzed(
    request: AnalysisRequestView,
    names: Seq<PathNameView>,
    sizes: Seq<std::result::Result<u64, Seq<char>>>,
    archives: Seq<InputArchiveView>,
    detection: ProfileDetectionView,
    readings: Seq<Vec<Reading>>,
    steps_per_unit: int,
) -> Outcome<AnalysisView> {
    match request_allowed(request, names, sizes) {
        Err(error) => Err(error),
        Ok(_) => match opened_in_order(request, names, archives) {
            Err(error) => Err(error),
            Ok(opened) => analysis_of(request, opened, detection, readings, steps_per_unit),
        },
    }
}

pub open spec fn plan_alone(outcome: Outcome<AnalysisView>) -> Outcome<MergePlanView> {
    match outcome {
        Ok(found) => Ok(found.plan),
        Err(error) => Err(error),
    }
}

/// Analyzes a request. `names` and `sizes` tell of its files, `archives` holds
/// them opened, all in the order of the request; `detection` is what the profile
/// registry made of their inventory, and `readings` holds for each unit what the
/// reader made of its databases.
pub fn analyze(
    request: AnalysisRequest,
    names: &Vec<PathName>,
    sizes: &Vec<FileSize>,
    archives: Vec<InputArchive>,
    detection: ProfileDetection,
    readings: Vec<Vec<Reading>>,
    steps_per_unit: usize,
) -> (result: Result<MergePlan>)
    requires
        names@.len() == request.pak_paths@.len(),
        archives@.len() == request.pak_paths@.len(),
        archives_well_formed(archives@),
        all_readings_well(readings@),
    ensures
        seen(result) == plan_alone(
            analyzed(
                request@,
                views(names@),
                size_views(sizes@),
                views(archives@),
                detection@,
                readings@,
                steps_per_unit as int,
            ),
        ),
{
    match validate_request(&request, names, sizes) {
        Ok(_) => {},
        Err(error) => {
            return Err(error);
        },
    }
    let opened = match open_paks(&request, names, archives) {
        Ok(opened) => opened,
        Err(error) => {
            return Err(error);
        },
    };
    match analyze_opened(request, &opened, detection, readings, steps_per_unit) {
        Ok(found) => Ok(found.plan),
        Err(error) => Err(error),
    }
}

/// The sizes of archives that are already open.
pub open spec fn archive_sizes(archives: Seq<InputArchiveView>) -> Seq<
    std::result::Result<u64, Seq<char>>,
> {
    archives.map_values(
        |input: InputArchiveView| Ok::<u64, Seq<char>>(input.archive.inventory.archive_size),
    )
}

fn list_archive_sizes(archives: &Vec<InputArchive>) -> (result: Vec<FileSize>)
    ensures
        size_views(result@) == archive_sizes(views(archives@)),
        result@.len() == archives@.len(),
{
    let ghost all = archive_sizes(views(archives@));
    let mut result: Vec<FileSize> = Vec::new();
    let mut at: usize = 0;
    assert(size_views(result@) =~= all.take(0));
    while at < archives.len()
        invariant
            at <= archives@.len(),
            result@.len() == at,
            all == archive_sizes(views(archives@)),
            size_views(result@) == all.take(at as int),
        decreases archives.len() - at,
    {
        let size: FileSize = Ok(archives[at].archive.inventory.archive_size);
        let ghost before = result@;
        result.push(size);
        proof {
            assert(views(archives@)[at as int] == archives@[at as int]@);
            assert(size_views(result@) =~= size_views(before).push(
                Ok::<u64, Seq<char>>(archives@[at as int].archive.inventory.archive_size),
            ));
            assert(all.take(at as int + 1) =~= all.take(at as int).push(all[at as int]));
        }
        at += 1;
    }
    assert(all.take(at as int) =~= all);
    result
}

/// The session of a request whose archives are already open.
pub open spec fn session_of(
    request: AnalysisRequestView,
    names: Seq<PathNameView>,
    archives: Seq<InputArchiveView>,
    detection: ProfileDetectionView,
    readings: Seq<Vec<Reading>>,
    steps_per_unit: int,
) -> Outcome<SessionView> {
    match cached_request_allowed(request, names, archive_sizes(archives)) {
        Err(error) => Err(error),
        Ok(_) => match opened_by_path(request, names, archives) {
            Err(error) => Err(error),
            Ok(opened) => match analysis_of(request, opened, detection, readings, steps_per_unit) {
                Err(error) => Err(error),
                Ok(found) => Ok(
                    SessionView {
                        plan: found.plan,
                        opened,
                        parsed_databases: found.databases,
                        cached_database_bytes: found.cached_bytes,
                    },
                ),
            },
        },
    }
}

/// Analyzes a request whose archives are already open, and keeps them open. There
/// must be exactly one archive for each path of the request.
pub fn analyze_with_archives<'a>(
    request: AnalysisRequest,
    names: &Vec<PathName>,
    archives: Vec<InputArchive<'a>>,
    detection: ProfileDetection,
    readings: Vec<Vec<Reading>>,
    steps_per_unit: usize,
) -> (result: Result<MergeAnalysisSession<'a>>)
    requires
        names@.len() == request.pak_paths@.len(),
        archives_well_formed(archives@),
        all_readings_well(readings@),
    ensures
        seen(result) == session_of(
            request@,
            views(names@),
            views(archives@),
            detection@,
            readings@,
            steps_per_unit as int,
        ),
        result matches Ok(session) ==> session.well_formed(),
{
    let sizes = list_archive_sizes(&archives);
    match validate_cached_request(&request, names, &sizes) {
        Ok(_) => {},
        Err(error) => {
            return Err(error);
        },
    }
    let opened = match opened_from_archives(&request, names, archives) {
        Ok(opened) => opened,
        Err(error) => {
            return Err(error);
        },
    };
    match analyze_opened(request, &opened, detection, readings, steps_per_unit) {
        Ok(found) => Ok(
            MergeAnalysisSession {
                plan: Arc::new(found.plan),
                opened,
                parsed_databases: found.databases,
                cached_database_bytes: found.cached_bytes,
            },
        ),
        Err(error) => Err(error),
    }
}

/// Analyzes a request whose archives are already open, unless it was cancelled.
pub fn analyze_with_archives_and_cancel<'a>(
    request: AnalysisRequest,
    names: &Vec<PathName>,
    archives: Vec<InputArchive<'a>>,
    detection: ProfileDetection,
    readings: Vec<Vec<Reading>>,
    steps_per_unit: usize,
    cancelled: bool,
) -> (result: Result<MergeAnalysisSession<'a>>)
    requires
        names@.len() == request.pak_paths@.len(),
        archives_well_formed(archives@),
        all_readings_well(readings@),
    ensures
        seen(result) == (if cancelled {
            Err::<SessionView, MergeErrorView>(MergeErrorView::Cancelled)
        } else {
            session_of(
                request@,
                views(names@),
                views(archives@),
                detection@,
                readings@,
                steps_per_unit as int,
            )
        }),
        result matches Ok(session) ==> session.well_formed(),
{
    match check_cancel(cancelled) {
        Ok(_) => {},
        Err(error) => {
            return Err(error);
        },
    }
    analyze_with_archives(request, names, archives, detection, readings, steps_per_unit)
}

} // verus!
