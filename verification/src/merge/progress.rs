//! Progress of an analysis and the division of its work among workers.
use vstd::prelude::*;

use super::error::{MergeError, MergeErrorView, Result};

verus! {

/// How often the rows of a database are reported.
pub const DATABASE_PROGRESS_ROW_INTERVAL: usize = 256;

/// A database is first indexed, then compared.
pub const DATABASE_ANALYSIS_PHASE_COUNT: usize = 2;

/// How far the comparison of one unit has come.
#[derive(Debug)]
pub struct AnalysisUnitProgress {
    pub completed_steps: usize,
    pub current_item: Option<String>,
}

impl AnalysisUnitProgress {
    /// A unit whose comparison has begun.
    pub fn started(current_item: Option<String>) -> (result: Self)
        ensures
            result.completed_steps == 0,
            result.current_item == current_item,
    {
        AnalysisUnitProgress { completed_steps: 0, current_item }
    }
}

/// The sum of the steps that units have taken.
pub open spec fn steps_sum(steps: Seq<usize>) -> int
    decreases steps.len(),
{
    if steps.len() == 0 {
        0
    } else {
        steps_sum(steps.drop_last()) + steps.last()
    }
}

proof fn steps_sum_update(steps: Seq<usize>, at: int, value: usize)
    requires
        0 <= at < steps.len(),
    ensures
        steps_sum(steps.update(at, value)) == steps_sum(steps) - steps[at] + value,
    decreases steps.len(),
{
    let after = steps.update(at, value);
    if at == steps.len() - 1 {
        assert(after.drop_last() =~= steps.drop_last());
    } else {
        assert(after.drop_last() =~= steps.drop_last().update(at, value));
        steps_sum_update(steps.drop_last(), at, value);
    }
}

proof fn steps_sum_bound(steps: Seq<usize>, most: int)
    requires
        0 <= most,
        forall|i: int| 0 <= i < steps.len() ==> steps[i] <= most,
    ensures
        0 <= steps_sum(steps) <= steps.len() * most,
        steps_sum(steps) == steps.len() * most ==> forall|i: int|
            0 <= i < steps.len() ==> steps[i] == most,
    decreases steps.len(),
{
    if steps.len() > 0 {
        let rest = steps.drop_last();
        assert forall|i: int| 0 <= i < rest.len() implies rest[i] <= most by {
            assert(rest[i] == steps[i]);
        }
        steps_sum_bound(rest, most);
        assert(steps.len() * most == rest.len() * most + most) by (nonlinear_arith)
            requires
                steps.len() == rest.len() + 1,
        ;
        if steps_sum(steps) == steps.len() * most {
            assert forall|i: int| 0 <= i < steps.len() implies steps[i] == most by {
                if i < rest.len() {
                    assert(rest[i] == steps[i]);
                }
            }
        }
    }
}

/// The progress over all units. Every unit owns the same number of steps, and an
/// update replaces what the unit reported before.
#[derive(Debug)]
pub struct AnalysisProgressTracker {
    pub unit_steps: Vec<usize>,
    pub completed_steps: usize,
    pub total_steps: usize,
    pub steps_per_unit: usize,
}

/// What a unit has taken once it reports `reported` steps: never fewer than
/// before, and never all of them.
pub open spec fn raised(before: usize, reported: usize, steps_per_unit: usize) -> usize {
    let most = if steps_per_unit == 0 {
        0
    } else {
        (steps_per_unit - 1) as usize
    };
    let capped = if reported < most {
        reported
    } else {
        most
    };
    if capped > before {
        capped
    } else {
        before
    }
}

impl AnalysisProgressTracker {
    pub open spec fn well_formed(&self) -> bool {
        &&& self.completed_steps == steps_sum(self.unit_steps@)
        &&& self.total_steps == self.unit_steps@.len() * self.steps_per_unit
        &&& forall|i: int| 0 <= i < self.unit_steps@.len() ==> self.unit_steps@[i] <= self.steps_per_unit
    }

    pub fn new(unit_count: usize, steps_per_unit: usize) -> (result: Result<Self>)
        ensures
            match result {
                Ok(tracker) => tracker.well_formed() && tracker.steps_per_unit == steps_per_unit
                    && tracker.unit_steps@ == Seq::new(unit_count as nat, |i: int| 0usize)
                    && unit_count * steps_per_unit <= usize::MAX,
                Err(error) => unit_count * steps_per_unit > usize::MAX && error@
                    == MergeErrorView::SizeOverflow("analysis progress"@),
            },
    {
        let total_steps: usize = match unit_count.checked_mul(steps_per_unit) {
            Some(total) => total,
            None => {
                return Err(MergeError::SizeOverflow("analysis progress"));
            },
        };
        let mut unit_steps: Vec<usize> = Vec::new();
        while unit_steps.len() < unit_count
            invariant
                unit_steps@.len() <= unit_count,
                unit_steps@ == Seq::new(unit_steps@.len(), |i: int| 0usize),
                steps_sum(unit_steps@) == 0,
            decreases unit_count - unit_steps@.len(),
        {
            let ghost before = unit_steps@;
            unit_steps.push(0);
            proof {
                assert(unit_steps@.drop_last() =~= before);
                assert(unit_steps@ =~= Seq::new(unit_steps@.len(), |i: int| 0usize));
            }
        }
        Ok(AnalysisProgressTracker { unit_steps, completed_steps: 0, total_steps, steps_per_unit })
    }

    /// Takes in what a unit reports, and yields how far all units have come.
    pub fn update(&mut self, unit_index: usize, completed_steps: usize) -> (report: (usize, usize))
        requires
            old(self).well_formed(),
            unit_index < old(self).unit_steps@.len(),
        ensures
            final(self).well_formed(),
            final(self).steps_per_unit == old(self).steps_per_unit,
            final(self).unit_steps@ == old(self).unit_steps@.update(
                unit_index as int,
                raised(
                    old(self).unit_steps@[unit_index as int],
                    completed_steps,
                    old(self).steps_per_unit,
                ),
            ),
            report.0 == final(self).completed_steps,
            report.1 == final(self).total_steps == old(self).total_steps,
            old(self).completed_steps <= report.0 <= report.1,
    {
        let most: usize = if self.steps_per_unit == 0 {
            0
        } else {
            self.steps_per_unit - 1
        };
        let capped: usize = if completed_steps < most {
            completed_steps
        } else {
            most
        };
        let before: usize = self.unit_steps[unit_index];
        let next: usize = if capped > before {
            capped
        } else {
            before
        };
        let ghost steps = self.unit_steps@;
        proof {
            steps_sum_update(steps, unit_index as int, next);
            steps_sum_bound(steps.update(unit_index as int, next), self.steps_per_unit as int);
        }
        self.completed_steps = self.completed_steps + (next - before);
        self.unit_steps.set(unit_index, next);
        (self.completed_steps, self.total_steps)
    }

    /// Marks a unit as compared.
    pub fn finish(&mut self, unit_index: usize) -> (report: (usize, usize))
        requires
            old(self).well_formed(),
            unit_index < old(self).unit_steps@.len(),
        ensures
            final(self).well_formed(),
            final(self).steps_per_unit == old(self).steps_per_unit,
            final(self).unit_steps@ == old(self).unit_steps@.update(
                unit_index as int,
                old(self).steps_per_unit,
            ),
            report.0 == final(self).completed_steps,
            report.1 == final(self).total_steps == old(self).total_steps,
            old(self).completed_steps <= report.0 <= report.1,
    {
        let before: usize = self.unit_steps[unit_index];
        let ghost steps = self.unit_steps@;
        proof {
            steps_sum_update(steps, unit_index as int, self.steps_per_unit);
            steps_sum_bound(
                steps.update(unit_index as int, self.steps_per_unit),
                self.steps_per_unit as int,
            );
        }
        self.completed_steps = self.completed_steps + (self.steps_per_unit - before);
        self.unit_steps.set(unit_index, self.steps_per_unit);
        (self.completed_steps, self.total_steps)
    }
}

/// The progress is complete only when every unit has taken all of its steps.
pub proof fn complete_only_when_every_unit_is(tracker: AnalysisProgressTracker)
    requires
        tracker.well_formed(),
        tracker.completed_steps == tracker.total_steps,
    ensures
        forall|i: int|
            0 <= i < tracker.unit_steps@.len() ==> tracker.unit_steps@[i] == tracker.steps_per_unit,
{
    steps_sum_bound(tracker.unit_steps@, tracker.steps_per_unit as int);
}

/// The steps that a database has taken: its phases share the unit's steps, and
/// detailed work never takes the last one.
pub open spec fn phase_steps(
    phase_index: int,
    completed: int,
    total: int,
    steps_per_unit: int,
) -> int {
    let start = steps_per_unit * phase_index / 2;
    let end = steps_per_unit * (phase_index + 1) / 2;
    let done = if completed < total {
        completed
    } else {
        total
    };
    let within = if total == 0 {
        0
    } else {
        done * (end - start) / total
    };
    if start + within < steps_per_unit - 1 {
        start + within
    } else {
        steps_per_unit - 1
    }
}

pub fn database_analysis_phase_progress(
    phase_index: usize,
    completed: u64,
    total: u64,
    current_item: String,
    steps_per_unit: usize,
) -> (result: AnalysisUnitProgress)
    requires
        phase_index < DATABASE_ANALYSIS_PHASE_COUNT,
        0 < steps_per_unit <= usize::MAX / 2,
    ensures
        result.completed_steps == phase_steps(
            phase_index as int,
            completed as int,
            total as int,
            steps_per_unit as int,
        ),
        result.current_item == Some(current_item),
{
    let start: usize = if phase_index == 0 {
        0
    } else {
        steps_per_unit / 2
    };
    let end: usize = if phase_index == 0 {
        steps_per_unit / 2
    } else {
        steps_per_unit
    };
    assert(start == steps_per_unit * phase_index / 2 && end == steps_per_unit * (phase_index + 1)
        / 2) by (nonlinear_arith)
        requires
            phase_index == 0 || phase_index == 1,
            phase_index == 0 ==> start == 0 && end == steps_per_unit as int / 2,
            phase_index == 1 ==> start == steps_per_unit as int / 2 && end == steps_per_unit,
    ;
    let span: usize = end - start;
    let done: u64 = if completed < total {
        completed
    } else {
        total
    };
    let within: usize = if total == 0 {
        0
    } else {
        assert(0 <= done * span <= 0xffff_ffff_ffff_ffff * 0xffff_ffff_ffff_ffff) by (nonlinear_arith)
            requires
                0 <= done <= 0xffff_ffff_ffff_ffff,
                0 <= span <= 0xffff_ffff_ffff_ffff,
        ;
        assert(0 <= done * span / (total as int) <= span) by (nonlinear_arith)
            requires
                0 <= done <= total,
                0 < total,
                0 <= span,
        ;
        ((done as u128) * (span as u128) / (total as u128)) as usize
    };
    let reached: usize = start + within;
    AnalysisUnitProgress {
        completed_steps: if reached < steps_per_unit - 1 {
            reached
        } else {
            steps_per_unit - 1
        },
        current_item: Some(current_item),
    }
}

/// Whether a database reports after this row: at every interval and at the end.
pub open spec fn reports_row(completed_rows: int, total_rows: int) -> bool {
    completed_rows != 0 && (completed_rows == total_rows || completed_rows
        % DATABASE_PROGRESS_ROW_INTERVAL as int == 0)
}

pub fn should_report_database_progress(completed_rows: usize, total_rows: usize) -> (result: bool)
    ensures
        result == reports_row(completed_rows as int, total_rows as int),
{
    completed_rows != 0 && (completed_rows == total_rows || completed_rows
        % DATABASE_PROGRESS_ROW_INTERVAL == 0)
}

/// The items that worker `worker` of `count` gets: every `count`th.
pub open spec fn dealt(indices: Seq<usize>, worker: int, count: int) -> Seq<usize>
    decreases indices.len(),
{
    if indices.len() == 0 {
        Seq::empty()
    } else {
        let before = dealt(indices.drop_last(), worker, count);
        if (indices.len() - 1) % count == worker {
            before.push(indices.last())
        } else {
            before
        }
    }
}

/// What each of `count` workers gets.
pub open spec fn deals(indices: Seq<usize>, count: int) -> Seq<Seq<usize>> {
    Seq::new(count as nat, |worker: int| dealt(indices, worker, count))
}

pub open spec fn index_views(lists: Seq<Vec<usize>>) -> Seq<Seq<usize>> {
    lists.map_values(|list: Vec<usize>| list@)
}

/// Deals items out to workers in turn.
fn deal(indices: &Vec<usize>, count: usize) -> (result: Vec<Vec<usize>>)
    requires
        count > 0,
    ensures
        index_views(result@) == deals(indices@, count as int),
{
    let mut result: Vec<Vec<usize>> = Vec::new();
    while result.len() < count
        invariant
            result@.len() <= count,
            forall|i: int| 0 <= i < result@.len() ==> (#[trigger] result@[i])@ == Seq::<usize>::empty(),
        decreases count - result@.len(),
    {
        result.push(Vec::new());
    }
    let mut at: usize = 0;
    assert(indices@.take(0) =~= Seq::<usize>::empty());
    while at < indices.len()
        invariant
            at <= indices@.len(),
            count > 0,
            result@.len() == count,
            forall|i: int|
                0 <= i < count ==> (#[trigger] result@[i])@ == dealt(
                    indices@.take(at as int),
                    i,
                    count as int,
                ),
        decreases indices.len() - at,
    {
        let worker: usize = at % count;
        let ghost before = result@;
        result[worker].push(indices[at]);
        proof {
            let later = indices@.take(at as int + 1);
            assert(later.drop_last() =~= indices@.take(at as int));
            assert(later.last() == indices@[at as int]);
            assert forall|i: int| 0 <= i < count implies (#[trigger] result@[i])@ == dealt(
                later,
                i,
                count as int,
            ) by {
                if i != worker {
                    assert(result@[i] == before[i]);
                }
            }
        }
        at += 1;
    }
    assert(indices@.take(at as int) =~= indices@);
    assert(index_views(result@) =~= deals(indices@, count as int));
    result
}

/// The places of a list whose items a worker gets are those that leave the
/// worker's number as their remainder.
proof fn dealt_holds(indices: Seq<usize>, worker: int, count: int, item: usize)
    requires
        0 < count,
    ensures
        dealt(indices, worker, count).contains(item) <==> exists|i: int|
            0 <= i < indices.len() && indices[i] == item && i % count == worker,
    decreases indices.len(),
{
    if indices.len() > 0 {
        let rest = indices.drop_last();
        let before = dealt(rest, worker, count);
        let whole = dealt(indices, worker, count);
        dealt_holds(rest, worker, count, item);
        if before.contains(item) {
            let k = choose|k: int| 0 <= k < before.len() && before[k] == item;
            assert(whole[k] == item);
            let i = choose|i: int|
                0 <= i < rest.len() && rest[i] == item && i % count == worker;
            assert(indices[i] == item);
        }
        if indices.last() == item && (indices.len() - 1) % count == worker {
            assert(whole[before.len() as int] == item);
            assert(indices[indices.len() - 1] == item);
        }
        if whole.contains(item) && !before.contains(item) {
            let k = choose|k: int| 0 <= k < whole.len() && whole[k] == item;
            assert(k == before.len());
        }
        assert forall|i: int|
            0 <= i < indices.len() && indices[i] == item && i % count == worker implies whole.contains(
            item,
        ) by {
            if i < rest.len() {
                assert(rest[i] == item);
            }
        }
    }
}

/// Every item is dealt to some worker, and no worker gets anything else.
pub proof fn deals_cover_the_items(indices: Seq<usize>, count: int, item: usize)
    requires
        0 < count,
    ensures
        indices.contains(item) <==> exists|worker: int|
            0 <= worker < count && (#[trigger] deals(indices, count)[worker]).contains(item),
{
    if indices.contains(item) {
        let i = choose|i: int| 0 <= i < indices.len() && indices[i] == item;
        let worker = i % count;
        assert(0 <= worker < count) by (nonlinear_arith)
            requires
                worker == i % count,
                0 < count,
        ;
        dealt_holds(indices, worker, count, item);
        assert(deals(indices, count)[worker].contains(item));
    }
    assert forall|worker: int|
        0 <= worker < count && (#[trigger] deals(indices, count)[worker]).contains(item) implies indices.contains(
        item,
    ) by {
        dealt_holds(indices, worker, count, item);
    }
}

/// How often an item stands in lists together.
pub open spec fn times(lists: Seq<Seq<usize>>, item: usize) -> nat
    decreases lists.len(),
{
    if lists.len() == 0 {
        0
    } else {
        times(lists.drop_last(), item) + lists.last().to_multiset().count(item)
    }
}

proof fn longer_list_counts(lists: Seq<Seq<usize>>, at: int, more: usize, item: usize)
    requires
        0 <= at < lists.len(),
    ensures
        times(lists.update(at, lists[at].push(more)), item) == times(lists, item) + (if more == item {
            1nat
        } else {
            0
        }),
    decreases lists.len(),
{
    broadcast use vstd::seq_lib::group_to_multiset_ensures;

    let after = lists.update(at, lists[at].push(more));
    if at == lists.len() - 1 {
        assert(after.drop_last() =~= lists.drop_last());
    } else {
        assert(after.drop_last() =~= lists.drop_last().update(
            at,
            lists.drop_last()[at].push(more),
        ));
        longer_list_counts(lists.drop_last(), at, more, item);
    }
}

proof fn empty_lists_count_nothing(lists: Seq<Seq<usize>>, item: usize)
    requires
        forall|i: int| 0 <= i < lists.len() ==> (#[trigger] lists[i]).len() == 0,
    ensures
        times(lists, item) == 0,
    decreases lists.len(),
{
    broadcast use vstd::seq_lib::group_to_multiset_ensures;

    if lists.len() > 0 {
        let rest = lists.drop_last();
        assert forall|i: int| 0 <= i < rest.len() implies (#[trigger] rest[i]).len() == 0 by {
            assert(rest[i] == lists[i]);
        }
        empty_lists_count_nothing(rest, item);
        assert(lists.last() =~= Seq::empty());
    }
}

/// Every item is dealt as often as it is there: the workers together get the items,
/// each exactly once.
pub proof fn deals_hold_each_item_once(indices: Seq<usize>, count: int, item: usize)
    requires
        0 < count || indices.len() == 0,
    ensures
        times(deals(indices, count), item) == indices.to_multiset().count(item),
    decreases indices.len(),
{
    broadcast use vstd::seq_lib::group_to_multiset_ensures;

    let all = deals(indices, count);
    if indices.len() == 0 {
        empty_lists_count_nothing(all, item);
        assert(indices =~= Seq::empty());
    } else {
        let rest = indices.drop_last();
        let before = deals(rest, count);
        deals_hold_each_item_once(rest, count, item);
        let worker = (indices.len() - 1) % count;
        assert(0 <= worker < count) by (nonlinear_arith)
            requires
                worker == (indices.len() - 1) % count,
                0 < count,
        ;
        assert(all =~= before.update(worker, before[worker].push(indices.last())));
        longer_list_counts(before, worker, indices.last(), item);
        assert(indices =~= rest.push(indices.last()));
    }
}

/// How the units of an analysis are divided.
#[derive(Debug)]
pub struct WorkerPlan {
    /// One list of units for each worker that compares databases.
    pub databases: Vec<Vec<usize>>,
    /// One list of units for each of the other workers.
    pub independent: Vec<Vec<usize>>,
}

#[verifier::ext_equal]
pub struct WorkerPlanView {
    pub databases: Seq<Seq<usize>>,
    pub independent: Seq<Seq<usize>>,
}

impl View for WorkerPlan {
    type V = WorkerPlanView;

    open spec fn view(&self) -> WorkerPlanView {
        WorkerPlanView {
            databases: index_views(self.databases@),
            independent: index_views(self.independent@),
        }
    }
}

pub open spec fn least(left: int, right: int) -> int {
    if left < right {
        left
    } else {
        right
    }
}

pub open spec fn at_least_one(value: int) -> int {
    if value < 1 {
        1
    } else {
        value
    }
}

/// How many workers compare databases: at most two, and one worker is kept for
/// other work where there is any.
pub open spec fn database_workers(databases: int, independent: int, workers: int) -> int {
    least(
        least(databases, 2),
        at_least_one(
            if independent > 0 {
                workers - 1
            } else {
                workers
            },
        ),
    )
}

/// How many workers compare everything else.
pub open spec fn independent_workers(databases: int, independent: int, workers: int) -> int {
    least(at_least_one(workers - database_workers(databases, independent, workers)), independent)
}

/// The division of the units.
pub open spec fn worker_plan(databases: Seq<usize>, independent: Seq<usize>, workers: int) -> WorkerPlanView {
    WorkerPlanView {
        databases: deals(
            databases,
            database_workers(databases.len() as int, independent.len() as int, workers),
        ),
        independent: deals(
            independent,
            independent_workers(databases.len() as int, independent.len() as int, workers),
        ),
    }
}

/// Divides the units among workers. The database comparisons go to at most two
/// of them, so that they cannot starve the other units.
pub fn partition_units(
    worker_count: usize,
    database_indices: &Vec<usize>,
    independent_indices: &Vec<usize>,
) -> (result: WorkerPlan)
    ensures
        result@ == worker_plan(database_indices@, independent_indices@, worker_count as int),
{
    let database_workers: usize = if database_indices.len() == 0 {
        0
    } else {
        let free: usize = if independent_indices.len() > 0 {
            if worker_count > 1 {
                worker_count - 1
            } else {
                1
            }
        } else if worker_count > 0 {
            worker_count
        } else {
            1
        };
        let most: usize = if database_indices.len() < 2 {
            database_indices.len()
        } else {
            2
        };
        if most < free {
            most
        } else {
            free
        }
    };
    let databases = if database_workers == 0 {
        let none: Vec<Vec<usize>> = Vec::new();
        assert(index_views(none@) =~= deals(database_indices@, 0));
        none
    } else {
        deal(database_indices, database_workers)
    };
    let independent = if independent_indices.len() == 0 {
        let none: Vec<Vec<usize>> = Vec::new();
        assert(index_views(none@) =~= deals(independent_indices@, 0));
        none
    } else {
        let available: usize = if worker_count > database_workers {
            worker_count - database_workers
        } else {
            1
        };
        deal(
            independent_indices,
            if available < independent_indices.len() {
                available
            } else {
                independent_indices.len()
            },
        )
    };
    WorkerPlan { databases, independent }
}

/// At most two workers compare databases; where there is other work, it has a
/// worker of its own; and with two workers or more, no more run than there are.
pub proof fn databases_never_starve_other_units(
    databases: Seq<usize>,
    independent: Seq<usize>,
    workers: int,
)
    requires
        2 <= workers,
    ensures
        worker_plan(databases, independent, workers).databases.len() <= 2,
        databases.len() > 0 ==> worker_plan(databases, independent, workers).databases.len() >= 1,
        independent.len() > 0 ==> worker_plan(databases, independent, workers).independent.len() >= 1,
        worker_plan(databases, independent, workers).databases.len() + worker_plan(
            databases,
            independent,
            workers,
        ).independent.len() <= workers,
{
}

/// The units from the first to the last.
pub open spec fn unit_numbers(total: usize) -> Seq<usize> {
    Seq::new(total as nat, |i: int| i as usize)
}

/// Where the database units and the other units are together the units of an
/// analysis, each of them is handed to exactly one worker, exactly once; and no
/// worker gets anything else.
pub proof fn each_unit_is_dealt_once(
    databases: Seq<usize>,
    independent: Seq<usize>,
    workers: int,
    total: usize,
    unit: usize,
)
    requires
        (databases + independent).to_multiset() == unit_numbers(total).to_multiset(),
    ensures
        ({
            let plan = worker_plan(databases, independent, workers);
            times(plan.databases, unit) + times(plan.independent, unit) == if unit < total {
                1nat
            } else {
                0
            }
        }),
{
    broadcast use vstd::seq_lib::group_to_multiset_ensures;

    let first = database_workers(databases.len() as int, independent.len() as int, workers);
    let second = independent_workers(databases.len() as int, independent.len() as int, workers);
    deals_hold_each_item_once(databases, first, unit);
    deals_hold_each_item_once(independent, second, unit);
    vstd::seq_lib::lemma_multiset_commutative(databases, independent);
    let all = unit_numbers(total);
    assert(all.no_duplicates());
    all.lemma_multiset_has_no_duplicates();
    if unit < total {
        assert(all[unit as int] == unit);
        assert(all.contains(unit));
        assert(all.to_multiset().contains(unit));
    } else {
        assert(!all.contains(unit));
    }
    assert((databases + independent).to_multiset().count(unit) == databases.to_multiset().count(
        unit,
    ) + independent.to_multiset().count(unit));
}

/// What the workers have handed back, in the order of the units.
#[derive(Debug)]
pub struct PartitionCollector<T> {
    pub slots: Vec<Option<Result<T>>>,
    pub tracker: AnalysisProgressTracker,
    pub finished: usize,
}

/// Whether a unit has an outcome, and a good one.
pub open spec fn succeeded<T>(slot: Option<Result<T>>) -> bool {
    slot matches Some(outcome) && outcome is Ok
}

/// How many slots are filled.
pub open spec fn filled<T>(slots: Seq<Option<Result<T>>>) -> int
    decreases slots.len(),
{
    if slots.len() == 0 {
        0
    } else {
        filled(slots.drop_last()) + (if slots.last() is Some {
            1int
        } else {
            0
        })
    }
}

proof fn filled_update<T>(slots: Seq<Option<Result<T>>>, at: int, value: Result<T>)
    requires
        0 <= at < slots.len(),
        slots[at] is None,
    ensures
        filled(slots.update(at, Some(value))) == filled(slots) + 1,
    decreases slots.len(),
{
    let after = slots.update(at, Some(value));
    if at == slots.len() - 1 {
        assert(after.drop_last() =~= slots.drop_last());
    } else {
        assert(after.drop_last() =~= slots.drop_last().update(at, Some(value)));
        filled_update(slots.drop_last(), at, value);
    }
}

proof fn filled_bound<T>(slots: Seq<Option<Result<T>>>)
    ensures
        0 <= filled(slots) <= slots.len(),
        filled(slots) == slots.len() ==> forall|i: int| 0 <= i < slots.len() ==> slots[i] is Some,
    decreases slots.len(),
{
    if slots.len() > 0 {
        filled_bound(slots.drop_last());
        if filled(slots) == slots.len() {
            assert forall|i: int| 0 <= i < slots.len() implies slots[i] is Some by {
                if i < slots.len() - 1 {
                    assert(slots.drop_last()[i] == slots[i]);
                }
            }
        }
    }
}

/// The values of a list of successful slots.
pub open spec fn slot_values<T>(slots: Seq<Option<Result<T>>>) -> Seq<T> {
    slots.map_values(|slot: Option<Result<T>>| slot->0->Ok_0)
}

/// The first failure in the order of the units.
pub open spec fn first_failure<T>(slots: Seq<Option<Result<T>>>) -> Option<int>
    decreases slots.len(),
{
    if slots.len() == 0 {
        None
    } else if slots[0]->0 is Err {
        Some(0int)
    } else {
        match first_failure(slots.skip(1)) {
            Some(at) => Some(at + 1),
            None => None,
        }
    }
}

/// Once every unit has an outcome, there is no failure exactly when all outcomes
/// are successes, and otherwise the failure of the smallest unit is told.
pub proof fn the_smallest_failure_is_told<T>(slots: Seq<Option<Result<T>>>)
    requires
        forall|i: int| 0 <= i < slots.len() ==> (#[trigger] slots[i]) is Some,
    ensures
        first_failure(slots) is None <==> forall|i: int|
            0 <= i < slots.len() ==> (#[trigger] slots[i])->0 is Ok,
        first_failure(slots) matches Some(at) ==> 0 <= at < slots.len() && slots[at]->0 is Err
            && forall|i: int| 0 <= i < at ==> (#[trigger] slots[i])->0 is Ok,
        slot_values(slots).len() == slots.len(),
        forall|i: int|
            0 <= i < slots.len() && (#[trigger] slots[i])->0 is Ok ==> slot_values(slots)[i]
                == slots[i]->0->Ok_0,
{
    first_failure_parts(slots);
}

proof fn first_failure_parts<T>(slots: Seq<Option<Result<T>>>)
    ensures
        first_failure(slots) matches Some(at) ==> 0 <= at < slots.len() && slots[at]->0 is Err
            && forall|i: int| 0 <= i < at ==> !((#[trigger] slots[i])->0 is Err),
        first_failure(slots) is None ==> forall|i: int|
            0 <= i < slots.len() ==> !((#[trigger] slots[i])->0 is Err),
    decreases slots.len(),
{
    if slots.len() > 0 && !(slots[0]->0 is Err) {
        let rest = slots.skip(1);
        first_failure_parts(rest);
        assert forall|i: int| 0 < i < slots.len() implies #[trigger] slots[i] == rest[i - 1] by {}
    }
}

impl<T> PartitionCollector<T> {
    pub open spec fn well_formed(&self) -> bool {
        &&& self.tracker.well_formed()
        &&& self.tracker.unit_steps@.len() == self.slots@.len()
        &&& self.finished == filled(self.slots@)
        &&& self.tracker.steps_per_unit > 0 ==> forall|i: int|
            0 <= i < self.slots@.len() && !succeeded((#[trigger] self.slots@[i]))
                ==> self.tracker.unit_steps@[i] < self.tracker.steps_per_unit
    }

    /// A collector that waits for every one of `total` units.
    pub fn new(total: usize, steps_per_unit: usize) -> (result: Result<Self>)
        ensures
            match result {
                Ok(collector) => collector.well_formed() && collector.slots@.len() == total
                    && collector.finished == 0 && collector.tracker.steps_per_unit
                    == steps_per_unit && collector.tracker.completed_steps == 0 && total
                    * steps_per_unit <= usize::MAX,
                Err(error) => total * steps_per_unit > usize::MAX && error@
                    == MergeErrorView::SizeOverflow("analysis progress"@),
            },
    {
        let tracker = AnalysisProgressTracker::new(total, steps_per_unit)?;
        let mut slots: Vec<Option<Result<T>>> = Vec::new();
        while slots.len() < total
            invariant
                slots@.len() <= total,
                filled(slots@) == 0,
            decreases total - slots@.len(),
        {
            let ghost before = slots@;
            slots.push(None);
            assert(slots@.drop_last() =~= before);
        }
        proof {
            zero_steps(tracker.unit_steps@);
        }
        Ok(PartitionCollector { slots, tracker, finished: 0 })
    }

    pub fn is_complete(&self) -> (result: bool)
        requires
            self.well_formed(),
        ensures
            result == (filled(self.slots@) == self.slots@.len()),
    {
        proof {
            filled_bound(self.slots@);
        }
        self.finished == self.slots.len()
    }

    /// Takes in a worker's report on a unit.
    pub fn report(&mut self, index: usize, update: &AnalysisUnitProgress) -> (report: (usize, usize))
        requires
            old(self).well_formed(),
            index < old(self).slots@.len(),
        ensures
            final(self).well_formed(),
            final(self).slots@ == old(self).slots@,
            final(self).finished == old(self).finished,
            final(self).tracker.unit_steps@ == old(self).tracker.unit_steps@.update(
                index as int,
                raised(
                    old(self).tracker.unit_steps@[index as int],
                    update.completed_steps,
                    old(self).tracker.steps_per_unit,
                ),
            ),
            final(self).tracker.steps_per_unit == old(self).tracker.steps_per_unit,
            final(self).tracker.total_steps == old(self).tracker.total_steps,
            report.0 == final(self).tracker.completed_steps,
            report.1 == old(self).tracker.total_steps,
            old(self).tracker.completed_steps <= report.0 <= report.1,
    {
        self.tracker.update(index, update.completed_steps)
    }

    /// Takes in the outcome of a unit. Only a success completes its steps.
    pub fn finish(&mut self, index: usize, result: Result<T>) -> (report: (usize, usize))
        requires
            old(self).well_formed(),
            index < old(self).slots@.len(),
            old(self).slots@[index as int] is None,
        ensures
            final(self).well_formed(),
            final(self).slots@ == old(self).slots@.update(index as int, Some(result)),
            final(self).finished == old(self).finished + 1,
            final(self).tracker.unit_steps@ == old(self).tracker.unit_steps@.update(
                index as int,
                (if result is Ok {
                    old(self).tracker.steps_per_unit
                } else {
                    raised(
                        old(self).tracker.unit_steps@[index as int],
                        0,
                        old(self).tracker.steps_per_unit,
                    )
                }),
            ),
            final(self).tracker.steps_per_unit == old(self).tracker.steps_per_unit,
            final(self).tracker.total_steps == old(self).tracker.total_steps,
            report.0 == final(self).tracker.completed_steps,
            report.1 == old(self).tracker.total_steps,
            old(self).tracker.completed_steps <= report.0 <= report.1,
    {
        let succeeded = result.is_ok();
        proof {
            filled_update(self.slots@, index as int, result);
            filled_bound(self.slots@.update(index as int, Some(result)));
        }
        let room: usize = self.slots.len();
        self.slots.set(index, Some(result));
        self.finished = self.finished + 1;
        if succeeded {
            self.tracker.finish(index)
        } else {
            self.tracker.update(index, 0)
        }
    }

    /// The values of all units in their order, or the first failure in that
    /// order, whichever worker failed first.
    pub fn into_results(self) -> (result: Result<Vec<T>>)
        requires
            self.well_formed(),
            filled(self.slots@) == self.slots@.len(),
        ensures
            match (result, first_failure(self.slots@)) {
                (Ok(values), None) => values@ == slot_values(self.slots@),
                (Err(error), Some(at)) => error == self.slots@[at]->0->Err_0,
                _ => false,
            },
    {
        let ghost all = self.slots@;
        proof {
            filled_bound(all);
            first_failure_parts(all);
        }
        let mut slots = self.slots;
        let mut values: Vec<T> = Vec::new();
        let mut failure: Option<MergeError> = None;
        // from the last unit to the first, so that the first failure is kept
        while slots.len() > 0
            invariant
                slots@.len() <= all.len(),
                slots@ == all.take(slots@.len() as int),
                forall|i: int| 0 <= i < all.len() ==> all[i] is Some,
                match (failure, first_failure(all.skip(slots@.len() as int))) {
                    (Some(error), Some(at)) => error == all[slots@.len() + at]->0->Err_0,
                    (None, None) => values@ == slot_values(all.skip(slots@.len() as int)).reverse(),
                    _ => false,
                },
            decreases slots@.len(),
        {
            let ghost count = slots@.len() as int;
            let ghost done = values@;
            match slots.pop() {
                Some(slot) => {
                    proof {
                        let tail = all.skip(count - 1);
                        assert(tail[0] == all[count - 1]);
                        assert(tail.skip(1) =~= all.skip(count));
                        assert(slot == all[count - 1]);
                        assert(slots@ =~= all.take(count - 1));
                        first_failure_parts(all.skip(count));
                        assert(slot_values(tail) =~= seq![slot->0->Ok_0] + slot_values(
                            all.skip(count),
                        ));
                        assert(slot_values(tail).reverse() =~= slot_values(
                            all.skip(count),
                        ).reverse().push(slot->0->Ok_0));
                    }
                    match slot {
                        Some(Ok(value)) => {
                            if failure.is_none() {
                                values.push(value);
                            }
                        },
                        Some(Err(error)) => {
                            failure = Some(error);
                        },
                        None => {},
                    }
                },
                None => {},
            }
        }
        assert(all.skip(0) =~= all);
        match failure {
            Some(error) => Err(error),
            None => {
                let ordered = reversed(values);
                assert(slot_values(all).reverse().reverse() =~= slot_values(all));
                Ok(ordered)
            },
        }
    }
}

/// As long as a unit waits, is still compared or has failed, the completed steps
/// stay below the total.
pub proof fn only_successes_complete_the_steps<T>(collector: PartitionCollector<T>, unit: int)
    requires
        collector.well_formed(),
        collector.tracker.steps_per_unit > 0,
        0 <= unit < collector.slots@.len(),
        !succeeded(collector.slots@[unit]),
    ensures
        collector.tracker.completed_steps < collector.tracker.total_steps,
{
    let tracker = collector.tracker;
    steps_sum_bound(tracker.unit_steps@, tracker.steps_per_unit as int);
    if tracker.completed_steps == tracker.total_steps {
        complete_only_when_every_unit_is(tracker);
        assert(tracker.unit_steps@[unit] < tracker.steps_per_unit);
    }
}

proof fn zero_steps(steps: Seq<usize>)
    requires
        forall|i: int| 0 <= i < steps.len() ==> steps[i] == 0,
    ensures
        steps_sum(steps) == 0,
    decreases steps.len(),
{
    if steps.len() > 0 {
        assert forall|i: int| 0 <= i < steps.drop_last().len() implies steps.drop_last()[i] == 0 by {
            assert(steps.drop_last()[i] == steps[i]);
        }
        zero_steps(steps.drop_last());
    }
}

/// The items of a list in the opposite order.
fn reversed<T>(list: Vec<T>) -> (result: Vec<T>)
    ensures
        result@ == list@.reverse(),
{
    let ghost all = list@;
    let mut rest = list;
    let mut result: Vec<T> = Vec::new();
    assert(all.skip(all.len() as int).reverse() =~= Seq::<T>::empty());
    assert(all.take(all.len() as int) =~= all);
    while rest.len() > 0
        invariant
            rest@.len() <= all.len(),
            rest@ == all.take(rest@.len() as int),
            result@ == all.skip(rest@.len() as int).reverse(),
        decreases rest@.len(),
    {
        let ghost count = rest@.len() as int;
        match rest.pop() {
            Some(item) => {
                proof {
                    assert(rest@ =~= all.take(count - 1));
                    assert(all.skip(count - 1).reverse() =~= all.skip(count).reverse().push(item));
                }
                result.push(item);
            },
            None => {},
        }
    }
    assert(all.skip(0) =~= all);
    result
}

/// The error of an analysis whose workers vanished.
pub fn worker_stopped() -> (error: MergeError)
    ensures
        error@ == MergeErrorView::InvalidRequest(
            "a parallel comparison worker stopped unexpectedly"@,
        ),
{
    MergeError::InvalidRequest("a parallel comparison worker stopped unexpectedly".to_owned())
}

} // verus!
