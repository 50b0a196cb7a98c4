//! Progress reports and the volumes of an installation.
use pak_merger::merge::progress::{
    database_analysis_phase_progress, partition_units, should_report_database_progress,
    AnalysisProgressTracker, AnalysisUnitProgress, PartitionCollector,
};
use pak_merger::merge::request::known_volume_identities_match;
use pak_merger::merge::MergeError;

const STEPS: usize = 1_000;

#[test]
fn database_build_progress_is_throttled_and_always_reports_completion() {
    assert!(!should_report_database_progress(0, 513));
    assert!(!should_report_database_progress(1, 513));
    assert!(!should_report_database_progress(255, 513));
    assert!(should_report_database_progress(256, 513));
    assert!(!should_report_database_progress(257, 513));
    assert!(should_report_database_progress(512, 513));
    assert!(should_report_database_progress(513, 513));
}

#[test]
fn unknown_or_different_volume_identity_uses_the_sidecar_path() {
    assert!(known_volume_identities_match(
        Some("volume-a".to_owned()),
        Some("volume-a".to_owned())
    ));
    assert!(!known_volume_identities_match(
        Some("volume-a".to_owned()),
        Some("volume-b".to_owned())
    ));
    assert!(!known_volume_identities_match(
        None,
        Some("volume-a".to_owned())
    ));
    assert!(!known_volume_identities_match(None, None));
}

#[test]
fn partitioned_analysis_does_not_starve_independent_work_behind_databases() {
    let plan = partition_units(4, &vec![0, 1], &vec![2, 3]);
    assert_eq!(plan.databases, [vec![0], vec![1]]);
    assert_eq!(plan.independent, [vec![2], vec![3]]);
    let crowded = partition_units(2, &vec![0, 1], &vec![2, 3]);
    assert_eq!(crowded.databases, [vec![0, 1]]);
    assert_eq!(crowded.independent, [vec![2, 3]]);

    let mut collector = PartitionCollector::new(4, STEPS).unwrap();
    let mut events = Vec::new();
    for index in [2, 3, 0, 1] {
        let started = AnalysisUnitProgress::started(Some(format!("unit-{index}")));
        events.push(collector.report(index, &started));
        events.push(collector.finish(index, Ok(index)));
    }
    assert!(collector.is_complete());
    assert_eq!(collector.into_results().unwrap(), vec![0, 1, 2, 3]);
    assert!(events.windows(2).all(|pair| pair[0].0 <= pair[1].0));
    assert!(events.iter().all(|event| event.1 == 4 * STEPS));
    assert_eq!(events.last().unwrap().0, 4 * STEPS);
}

#[test]
fn partitioned_analysis_caps_database_workers_at_two() {
    let plan = partition_units(8, &vec![0, 1, 2, 3, 4, 5], &vec![6, 7]);
    assert_eq!(plan.databases, [vec![0, 2, 4], vec![1, 3, 5]]);
    assert_eq!(plan.independent, [vec![6], vec![7]]);
    assert_eq!(plan.databases.len(), 2);

    let mut collector = PartitionCollector::new(8, STEPS).unwrap();
    for list in plan.databases.iter().rev().chain(&plan.independent) {
        for index in list {
            collector.finish(*index, Ok(*index));
        }
    }
    assert_eq!(
        collector.into_results().unwrap(),
        (0..8).collect::<Vec<usize>>()
    );
}

#[test]
fn partitioned_analysis_keeps_error_selection_in_original_unit_order() {
    let mut collector = PartitionCollector::new(4, STEPS).unwrap();
    let mut completed = Vec::new();
    for index in [0, 3, 1, 2] {
        let outcome = match index {
            1 => Err(MergeError::InvalidRequest("unit one failed".to_owned())),
            3 => Err(MergeError::InvalidRequest("unit three failed".to_owned())),
            _ => Ok(index),
        };
        completed.push(collector.finish(index, outcome));
    }
    let error = collector.into_results().unwrap_err();
    assert!(error.message().contains("unit one failed"));
    assert!(completed.windows(2).all(|pair| pair[0].0 <= pair[1].0));
    assert!(completed.iter().all(|(count, total)| count < total));
}

#[test]
fn partitioned_analysis_propagates_cancellation_from_independent_work() {
    let mut collector: PartitionCollector<usize> = PartitionCollector::new(4, STEPS).unwrap();
    let mut completed = Vec::new();
    for index in [2, 0, 1, 3] {
        completed.push(collector.finish(index, Err(MergeError::Cancelled)));
    }
    assert!(matches!(
        collector.into_results().unwrap_err(),
        MergeError::Cancelled
    ));
    assert!(completed.windows(2).all(|pair| pair[0].0 <= pair[1].0));
    assert!(completed.iter().all(|(count, total)| count < total));
}

#[test]
fn detailed_work_never_completes_a_unit() {
    let first = database_analysis_phase_progress(0, 5, 10, "unit".to_owned(), STEPS);
    assert_eq!(first.completed_steps, 250);
    let last = database_analysis_phase_progress(1, 10, 10, "unit".to_owned(), STEPS);
    assert_eq!(last.completed_steps, STEPS - 1);
    let mut tracker = AnalysisProgressTracker::new(2, STEPS).unwrap();
    assert_eq!(tracker.update(0, 5_000), (STEPS - 1, 2 * STEPS));
    assert_eq!(tracker.update(0, 3), (STEPS - 1, 2 * STEPS));
    assert_eq!(tracker.finish(0), (STEPS, 2 * STEPS));
    assert!(matches!(
        AnalysisProgressTracker::new(usize::MAX, 2),
        Err(MergeError::SizeOverflow("analysis progress"))
    ));
}

#[test]
fn every_unit_is_dealt_to_one_worker_once() {
    for workers in 0..7 {
        for split in 0..9 {
            let databases: Vec<usize> = (0..split).rev().collect();
            let independent: Vec<usize> = (split..9).collect();
            let plan = partition_units(workers, &databases, &independent);
            let mut dealt: Vec<usize> = plan
                .databases
                .iter()
                .chain(&plan.independent)
                .flatten()
                .copied()
                .collect();
            dealt.sort_unstable();
            assert_eq!(dealt, (0..9).collect::<Vec<usize>>());
            assert!(plan.databases.len() <= 2);
        }
    }
}

#[test]
fn failed_units_keep_the_steps_open() {
    let mut collector = PartitionCollector::new(2, STEPS).unwrap();
    let failed = collector.finish(0, Err(MergeError::Cancelled));
    assert_eq!(failed, (0, 2 * STEPS));
    let late = AnalysisUnitProgress {
        completed_steps: 5 * STEPS,
        current_item: None,
    };
    assert_eq!(collector.report(0, &late), (STEPS - 1, 2 * STEPS));
    let done: (usize, usize) = collector.finish(1, Ok(1));
    assert_eq!(done, (2 * STEPS - 1, 2 * STEPS));
    assert!(collector.is_complete());
    assert!(collector.into_results().is_err());
}
