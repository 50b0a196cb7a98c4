//! What the choices mean for the rows of a merged database.
use vstd::prelude::*;

use super::analyze::{add_capped, capped_sum};
use super::database::{
    parsed_well, AtomicGroup, AtomicGroupView, DatabaseRow, ParsedDbProvider, ParsedDbProviderView,
    RowUnit,
};
use super::error::{mismatch, seen, MergeError, MergeErrorView, Outcome, Result};
use super::opened::{OpenedPak, OpenedPakView};
use super::resolve::{
    indexed_conflict, row_conflict, selected_input, selected_input_id, AssetConflictIndex,
};
use super::rows::groups_of;
use super::types::{Conflict, ConflictKind, ConflictView, MergePlan, ResolutionSet};
use crate::lists::{views, views_push};
use crate::ordered::{get, put, OrderedMap};
use crate::sorting::met_from;
use crate::text::{cat3, cat5, clone_texts, dec, decimal_usize, same_text, texts};

verus! {

/// What the rows of one database are merged from.
pub struct RowContext<'b, 'a> {
    pub plan: &'b MergePlan,
    pub index: &'b AssetConflictIndex,
    pub resolutions: &'b ResolutionSet,
    pub opened: &'b Vec<OpenedPak<'a>>,
    pub parsed: &'b Vec<ParsedDbProvider>,
}

#[verifier::ext_equal]
pub struct RowContextView {
    pub conflicts: Seq<ConflictView>,
    pub choices: Seq<(Seq<char>, Seq<char>)>,
    pub asset_path: Seq<char>,
    pub opened: Seq<OpenedPakView>,
    pub parsed: Seq<ParsedDbProviderView>,
}

impl<'b, 'a> View for RowContext<'b, 'a> {
    type V = RowContextView;

    open spec fn view(&self) -> RowContextView {
        RowContextView {
            conflicts: self.plan@.conflicts,
            choices: self.resolutions@.choices,
            asset_path: self.index.asset_path@,
            opened: views(self.opened@),
            parsed: views(self.parsed@),
        }
    }
}

impl<'b, 'a> RowContext<'b, 'a> {
    pub open spec fn well_formed(&self) -> bool {
        &&& self.index.indexes(self.plan@)
        &&& self.resolutions.choices.well_formed()
        &&& parsed_well(self.parsed@, self.opened@.len())
    }
}

/// The conflict about a group of a row.
pub open spec fn conflict_in(context: RowContextView, row_id: i64, group_id: Seq<char>) -> Option<
    ConflictView,
> {
    row_conflict(context.conflicts, context.asset_path, row_id, group_id)
}

/// The first provider from `at` on that is the input with an id.
pub open spec fn donor_at(
    parsed: Seq<ParsedDbProviderView>,
    opened: Seq<OpenedPakView>,
    input_id: Seq<char>,
    at: int,
) -> Option<int>
    decreases parsed.len() - at,
{
    if at >= parsed.len() {
        None
    } else if opened[parsed[at].input_index as int].descriptor.id == input_id {
        Some(at)
    } else {
        donor_at(parsed, opened, input_id, at + 1)
    }
}

pub fn find_donor(parsed: &Vec<ParsedDbProvider>, opened: &Vec<OpenedPak>, input_id: &str) -> (result:
    Option<usize>)
    requires
        parsed_well(parsed@, opened@.len()),
    ensures
        match (result, donor_at(views(parsed@), views(opened@), input_id@, 0)) {
            (Some(at), Some(wanted)) => at == wanted && at < parsed@.len(),
            (None, None) => true,
            _ => false,
        },
{
    let ghost all = views(parsed@);
    let ghost inputs = views(opened@);
    let mut at: usize = 0;
    while at < parsed.len()
        invariant
            at <= parsed@.len(),
            all == views(parsed@),
            inputs == views(opened@),
            parsed_well(parsed@, opened@.len()),
            donor_at(all, inputs, input_id@, 0) == donor_at(all, inputs, input_id@, at as int),
        decreases parsed.len() - at,
    {
        let index: usize = parsed[at].input_index;
        proof {
            assert(all[at as int] == parsed@[at as int]@);
            assert(index < opened@.len());
            assert(inputs[index as int] == opened@[index as int]@);
        }
        if same_text(opened[index].descriptor.id.as_str(), input_id) {
            return Some(at);
        }
        at += 1;
    }
    None
}

/// Fields of a row that are taken from another provider.
#[derive(Debug)]
pub struct AtomicDonorSelection {
    pub fields: Vec<String>,
    /// The provider among those of the database.
    pub donor_input: usize,
    pub array_index: Option<usize>,
    pub expected_array_len: Option<usize>,
}

#[verifier::ext_equal]
pub struct SelectionView {
    pub fields: Seq<Seq<char>>,
    pub donor_input: usize,
    pub array_index: Option<usize>,
    pub expected_array_len: Option<usize>,
}

impl View for AtomicDonorSelection {
    type V = SelectionView;

    open spec fn view(&self) -> SelectionView {
        SelectionView {
            fields: texts(self.fields@),
            donor_input: self.donor_input,
            array_index: self.array_index,
            expected_array_len: self.expected_array_len,
        }
    }
}

/// The chosen elements of a field that holds an array.
#[derive(Debug)]
pub struct IndexedField {
    pub len: usize,
    pub indices: Vec<usize>,
}

#[verifier::ext_equal]
pub struct IndexedFieldView {
    pub len: usize,
    pub indices: Seq<usize>,
}

impl View for IndexedField {
    type V = IndexedFieldView;

    open spec fn view(&self) -> IndexedFieldView {
        IndexedFieldView { len: self.len, indices: self.indices@ }
    }
}

/// What the choices of a row have touched so far.
#[verifier::ext_equal]
pub struct TouchedView {
    pub selections: Seq<SelectionView>,
    /// The fields that are replaced as a whole.
    pub whole: Seq<(Seq<char>, bool)>,
    pub indexed: Seq<(Seq<char>, IndexedFieldView)>,
}

pub struct Touched {
    pub selections: Vec<AtomicDonorSelection>,
    pub whole: OrderedMap<bool>,
    pub indexed: OrderedMap<IndexedField>,
}

impl View for Touched {
    type V = TouchedView;

    open spec fn view(&self) -> TouchedView {
        TouchedView {
            selections: views(self.selections@),
            whole: self.whole@,
            indexed: self.indexed@,
        }
    }
}

pub open spec fn untouched() -> TouchedView {
    TouchedView { selections: Seq::empty(), whole: Seq::empty(), indexed: Seq::empty() }
}

/// The error of two choices for one element.
pub open spec fn overlap<W>(unit_id: Seq<char>, field: Seq<char>, index: usize) -> Outcome<W> {
    mismatch(
        "overlapping or inconsistent indexed selection "@ + unit_id + " "@ + field + ("["@ + dec(
            index as nat,
        ) + "]"@),
    )
}

/// The chosen elements with one more of each of the fields.
pub open spec fn with_elements(
    indexed: Seq<(Seq<char>, IndexedFieldView)>,
    unit_id: Seq<char>,
    fields: Seq<Seq<char>>,
    len: usize,
    index: usize,
) -> Outcome<Seq<(Seq<char>, IndexedFieldView)>>
    decreases fields.len(),
{
    if fields.len() == 0 {
        Ok(indexed)
    } else {
        match get(indexed, fields[0]) {
            None => with_elements(
                put(indexed, fields[0], IndexedFieldView { len, indices: seq![index] }),
                unit_id,
                fields.skip(1),
                len,
                index,
            ),
            Some(known) => if known.len != len || known.indices.contains(index) {
                overlap(unit_id, fields[0], index)
            } else {
                with_elements(
                    put(
                        indexed,
                        fields[0],
                        IndexedFieldView { len: known.len, indices: known.indices.push(index) },
                    ),
                    unit_id,
                    fields.skip(1),
                    len,
                    index,
                )
            },
        }
    }
}

/// What is touched once a unit is chosen too.
pub open spec fn with_touched(touched: TouchedView, unit: AtomicGroupView) -> Outcome<TouchedView> {
    match unit.array_index {
        Some(index) => match unit.expected_array_len {
            None => mismatch("indexed unit "@ + unit.id + " has no audited array length"@),
            Some(len) => match with_elements(touched.indexed, unit.id, unit.fields, len, index) {
                Err(error) => Err(error),
                Ok(indexed) => Ok(TouchedView { indexed, ..touched }),
            },
        },
        None => Ok(TouchedView { whole: met_from(touched.whole, unit.fields), ..touched }),
    }
}

/// What the choice for a unit touches, where there is one.
pub open spec fn with_choice(
    touched: TouchedView,
    context: RowContextView,
    row_id: i64,
    unit: AtomicGroupView,
) -> Outcome<TouchedView> {
    match conflict_in(context, row_id, unit.id) {
        None => Ok(touched),
        Some(conflict) => if !conflict.blocking && conflict.kind == ConflictKind::EncodingDrift {
            Ok(touched)
        } else {
            match selected_input(conflict, context.choices) {
                Err(error) => Err(error),
                Ok(input_id) => match with_touched(touched, unit) {
                    Err(error) => Err(error),
                    Ok(next) => match donor_at(context.parsed, context.opened, input_id, 0) {
                        None => Err(
                            MergeErrorView::InvalidResolution(
                                "the selected Pak "@ + input_id
                                    + " is not available for this field"@,
                            ),
                        ),
                        Some(donor) => Ok(
                            TouchedView {
                                selections: next.selections.push(
                                    SelectionView {
                                        fields: unit.fields,
                                        donor_input: donor as usize,
                                        array_index: unit.array_index,
                                        expected_array_len: unit.expected_array_len,
                                    },
                                ),
                                ..next
                            },
                        ),
                    },
                },
            }
        },
    }
}

/// What the choices for the units of a row touch.
pub open spec fn with_choices(
    touched: TouchedView,
    context: RowContextView,
    row_id: i64,
    units: Seq<AtomicGroupView>,
) -> Outcome<TouchedView>
    decreases units.len(),
{
    if units.len() == 0 {
        Ok(touched)
    } else {
        match with_choice(touched, context, row_id, units[0]) {
            Err(error) => Err(error),
            Ok(next) => with_choices(next, context, row_id, units.skip(1)),
        }
    }
}

fn holds_index(indices: &Vec<usize>, index: usize) -> (result: bool)
    ensures
        result == indices@.contains(index),
{
    let mut at: usize = 0;
    while at < indices.len()
        invariant
            at <= indices@.len(),
            forall|i: int| 0 <= i < at ==> indices@[i] != index,
        decreases indices.len() - at,
    {
        if indices[at] == index {
            assert(indices@[at as int] == index);
            return true;
        }
        at += 1;
    }
    false
}

fn copy_indices(indices: &Vec<usize>) -> (result: Vec<usize>)
    ensures
        result@ == indices@,
{
    let mut result: Vec<usize> = Vec::new();
    let mut at: usize = 0;
    while at < indices.len()
        invariant
            at <= indices@.len(),
            result@ == indices@.take(at as int),
        decreases indices.len() - at,
    {
        result.push(indices[at]);
        assert(result@ =~= indices@.take(at as int + 1));
        at += 1;
    }
    assert(result@ =~= indices@);
    result
}

#[verifier::loop_isolation(false)]
fn touch_elements(
    indexed: &mut OrderedMap<IndexedField>,
    unit_id: &str,
    fields: &Vec<String>,
    len: usize,
    index: usize,
) -> (result: Result<()>)
    requires
        old(indexed).well_formed(),
    ensures
        match (result, with_elements(old(indexed)@, unit_id@, texts(fields@), len, index)) {
            (Ok(_), Ok(wanted)) => final(indexed)@ == wanted && final(indexed).well_formed(),
            (Err(error), Err(wanted)) => error@ == wanted,
            _ => false,
        },
{
    let ghost start = indexed@;
    let ghost all = texts(fields@);
    let mut at: usize = 0;
    assert(all.skip(0) =~= all);
    while at < fields.len()
        invariant
            at <= fields@.len(),
            indexed.well_formed(),
            with_elements(start, unit_id@, all, len, index) == with_elements(
                indexed@,
                unit_id@,
                all.skip(at as int),
                len,
                index,
            ),
        decreases fields.len() - at,
    {
        let field = fields[at].clone();
        proof {
            assert(all.skip(at as int)[0] == field@);
            assert(all.skip(at as int).skip(1) =~= all.skip(at as int + 1));
        }
        let mut indices: Vec<usize> = Vec::new();
        match indexed.find(field.as_str()) {
            Some(place) => {
                let known = &indexed.items[place].1;
                if known.len != len || holds_index(&known.indices, index) {
                    return Err(
                        MergeError::DatabaseStructureMismatch(
                            cat5(
                                "overlapping or inconsistent indexed selection ",
                                unit_id,
                                " ",
                                field.as_str(),
                                cat3("[", decimal_usize(index).as_str(), "]").as_str(),
                            ),
                        ),
                    );
                }
                indices = copy_indices(&known.indices);
            },
            None => {},
        }
        indices.push(index);
        proof {
            if get(indexed@, field@) is None {
                assert(indices@ =~= seq![index]);
            }
        }
        indexed.insert(field, IndexedField { len, indices });
        at += 1;
    }
    Ok(())
}

fn touch_fields(whole: &mut OrderedMap<bool>, fields: &Vec<String>)
    requires
        old(whole).well_formed(),
    ensures
        final(whole).well_formed(),
        final(whole)@ == met_from(old(whole)@, texts(fields@)),
{
    let ghost start = whole@;
    let ghost all = texts(fields@);
    let mut at: usize = 0;
    assert(all.skip(0) =~= all);
    while at < fields.len()
        invariant
            at <= fields@.len(),
            all == texts(fields@),
            whole.well_formed(),
            met_from(start, all) == met_from(whole@, all.skip(at as int)),
        decreases fields.len() - at,
    {
        proof {
            assert(all.skip(at as int)[0] == fields@[at as int]@);
            assert(all.skip(at as int).skip(1) =~= all.skip(at as int + 1));
        }
        whole.insert(fields[at].clone(), true);
        at += 1;
    }
}

fn touch_unit(touched: &mut Touched, unit: &AtomicGroup) -> (result: Result<()>)
    requires
        old(touched).whole.well_formed(),
        old(touched).indexed.well_formed(),
    ensures
        match (result, with_touched(old(touched)@, unit@)) {
            (Ok(_), Ok(wanted)) => final(touched)@ == wanted && final(touched).whole.well_formed()
                && final(touched).indexed.well_formed(),
            (Err(error), Err(wanted)) => error@ == wanted,
            _ => false,
        },
{
    match unit.array_index {
        Some(index) => match unit.expected_array_len {
            None => Err(
                MergeError::DatabaseStructureMismatch(
                    cat3("indexed unit ", unit.id.as_str(), " has no audited array length"),
                ),
            ),
            Some(len) => touch_elements(
                &mut touched.indexed,
                unit.id.as_str(),
                &unit.fields,
                len,
                index,
            ),
        },
        None => {
            touch_fields(&mut touched.whole, &unit.fields);
            Ok(())
        },
    }
}

/// Whether a conflict only tells of storage that differs.
fn is_silent_drift(conflict: &Conflict) -> (result: bool)
    ensures
        result == (!conflict@.blocking && conflict@.kind == ConflictKind::EncodingDrift),
{
    if conflict.blocking {
        return false;
    }
    match conflict.kind {
        ConflictKind::EncodingDrift => true,
        _ => false,
    }
}

fn choose_unit(touched: &mut Touched, context: &RowContext, row_id: i64, unit: &AtomicGroup) -> (result:
    Result<()>)
    requires
        context.well_formed(),
        old(touched).whole.well_formed(),
        old(touched).indexed.well_formed(),
    ensures
        match (result, with_choice(old(touched)@, context@, row_id, unit@)) {
            (Ok(_), Ok(wanted)) => final(touched)@ == wanted && final(touched).whole.well_formed()
                && final(touched).indexed.well_formed(),
            (Err(error), Err(wanted)) => error@ == wanted,
            _ => false,
        },
{
    match indexed_conflict(context.plan, context.index, row_id, unit.id.as_str()) {
        None => Ok(()),
        Some(conflict) => {
            if is_silent_drift(conflict) {
                return Ok(());
            }
            let input_id = match selected_input_id(conflict, context.resolutions) {
                Ok(input_id) => input_id,
                Err(error) => {
                    return Err(error);
                },
            };
            match touch_unit(touched, unit) {
                Ok(_) => {},
                Err(error) => {
                    return Err(error);
                },
            }
            match find_donor(context.parsed, context.opened, input_id.as_str()) {
                None => Err(
                    MergeError::InvalidResolution(
                        cat3(
                            "the selected Pak ",
                            input_id.as_str(),
                            " is not available for this field",
                        ),
                    ),
                ),
                Some(donor) => {
                    let selection = AtomicDonorSelection {
                        fields: clone_texts(&unit.fields),
                        donor_input: donor,
                        array_index: unit.array_index,
                        expected_array_len: unit.expected_array_len,
                    };
                    proof {
                        views_push(touched.selections@, selection);
                    }
                    touched.selections.push(selection);
                    Ok(())
                },
            }
        },
    }
}

#[verifier::loop_isolation(false)]
fn choose_units(context: &RowContext, row_id: i64, units: &Vec<RowUnit>) -> (result: Result<Touched>)
    requires
        context.well_formed(),
    ensures
        match (result, with_choices(untouched(), context@, row_id, groups_of(units@))) {
            (Ok(touched), Ok(wanted)) => touched@ == wanted,
            (Err(error), Err(wanted)) => error@ == wanted,
            _ => false,
        },
{
    let ghost all = groups_of(units@);
    let mut touched = Touched {
        selections: Vec::new(),
        whole: OrderedMap::new(),
        indexed: OrderedMap::new(),
    };
    let mut at: usize = 0;
    proof {
        assert(touched@ =~= untouched());
        assert(all.skip(0) =~= all);
    }
    while at < units.len()
        invariant
            at <= units@.len(),
            touched.whole.well_formed(),
            touched.indexed.well_formed(),
            with_choices(untouched(), context@, row_id, all) == with_choices(
                touched@,
                context@,
                row_id,
                all.skip(at as int),
            ),
        decreases units.len() - at,
    {
        proof {
            assert(all.skip(at as int)[0] == units@[at as int].group@);
            assert(all.skip(at as int).skip(1) =~= all.skip(at as int + 1));
        }
        match choose_unit(&mut touched, context, row_id, &units[at].group) {
            Ok(_) => {},
            Err(error) => {
                return Err(error);
            },
        }
        at += 1;
    }
    Ok(touched)
}

/// From where a row of the merged database comes.
#[derive(Debug)]
pub enum RowChoice {
    /// The whole row of one provider.
    Whole(usize),
    /// The row of the base Pak, with fields of other providers.
    Atomic(Vec<AtomicDonorSelection>),
}

#[verifier::ext_equal]
pub enum RowChoiceView {
    Whole(usize),
    Atomic(Seq<SelectionView>),
}

impl View for RowChoice {
    type V = RowChoiceView;

    open spec fn view(&self) -> RowChoiceView {
        match *self {
            RowChoice::Whole(at) => RowChoiceView::Whole(at),
            RowChoice::Atomic(selections) => RowChoiceView::Atomic(views(selections@)),
        }
    }
}

/// From where a row comes, and how many values it keeps and replaces.
#[derive(Debug)]
pub struct RowPlan {
    pub choice: RowChoice,
    pub preserved: u64,
    pub replaced: u64,
}

#[verifier::ext_equal]
pub struct RowPlanView {
    pub choice: RowChoiceView,
    pub preserved: u64,
    pub replaced: u64,
}

impl View for RowPlan {
    type V = RowPlanView;

    open spec fn view(&self) -> RowPlanView {
        RowPlanView {
            choice: self.choice@,
            preserved: self.preserved,
            replaced: self.replaced,
        }
    }
}

/// What remains of `left` without `right`, or nothing.
pub open spec fn without(left: int, right: int) -> int {
    if right < left {
        left - right
    } else {
        0
    }
}

/// How many elements the fields keep.
pub open spec fn kept_elements(indexed: Seq<(Seq<char>, IndexedFieldView)>, start: u64) -> u64
    decreases indexed.len(),
{
    if indexed.len() == 0 {
        start
    } else {
        capped_sum(
            kept_elements(indexed.drop_last(), start),
            without(indexed.last().1.len as int, indexed.last().1.indices.len() as int) as u64,
        )
    }
}

/// How many elements of the fields are replaced.
pub open spec fn replaced_elements(indexed: Seq<(Seq<char>, IndexedFieldView)>, start: u64) -> u64
    decreases indexed.len(),
{
    if indexed.len() == 0 {
        start
    } else {
        capped_sum(
            replaced_elements(indexed.drop_last(), start),
            indexed.last().1.indices.len() as u64,
        )
    }
}

/// What a row keeps and replaces once its choices touched what they touch.
pub open spec fn atomic_plan(touched: TouchedView, field_count: int) -> RowPlanView {
    if touched.whole.len() == 0 && touched.indexed.len() == 0 {
        RowPlanView { choice: RowChoiceView::Atomic(touched.selections), preserved: 1, replaced: 0 }
    } else {
        RowPlanView {
            choice: RowChoiceView::Atomic(touched.selections),
            preserved: kept_elements(
                touched.indexed,
                without(field_count, (touched.whole.len() + touched.indexed.len()) as int) as u64,
            ),
            replaced: replaced_elements(touched.indexed, touched.whole.len() as u64),
        }
    }
}

/// From where a row of the base Pak comes in the merged database.
pub open spec fn row_plan(context: RowContextView, row: DatabaseRow) -> Outcome<RowPlanView> {
    match conflict_in(context, row.id, "__whole_row__"@) {
        Some(conflict) => match selected_input(conflict, context.choices) {
            Err(error) => Err(error),
            Ok(input_id) => match donor_at(context.parsed, context.opened, input_id, 0) {
                None => Err(
                    MergeErrorView::InvalidResolution(
                        "selected whole-row input "@ + input_id + " is unavailable"@,
                    ),
                ),
                Some(donor) => Ok(
                    RowPlanView {
                        choice: RowChoiceView::Whole(donor as usize),
                        preserved: 0,
                        replaced: 1,
                    },
                ),
            },
        },
        None => match row.units {
            Err(text) => Err(MergeErrorView::BinaryAsset(text@)),
            Ok(units) => match with_choices(untouched(), context, row.id, groups_of(units@)) {
                Err(error) => Err(error),
                Ok(touched) => Ok(atomic_plan(touched, row.fields@.len() as int)),
            },
        },
    }
}

fn count_elements(indexed: &OrderedMap<IndexedField>, kept_start: u64, replaced_start: u64) -> (result: (
    u64,
    u64,
))
    ensures
        result.0 == kept_elements(indexed@, kept_start),
        result.1 == replaced_elements(indexed@, replaced_start),
{
    let ghost all = indexed@;
    let mut kept: u64 = kept_start;
    let mut replaced: u64 = replaced_start;
    let mut at: usize = 0;
    assert(all.take(0) =~= Seq::<(Seq<char>, IndexedFieldView)>::empty());
    while at < indexed.items.len()
        invariant
            at <= indexed.items@.len(),
            all == indexed@,
            kept == kept_elements(all.take(at as int), kept_start),
            replaced == replaced_elements(all.take(at as int), replaced_start),
        decreases indexed.items.len() - at,
    {
        let field = &indexed.items[at].1;
        let count: usize = field.indices.len();
        proof {
            assert(all.take(at as int + 1).drop_last() =~= all.take(at as int));
            assert(all.take(at as int + 1).last() == all[at as int]);
            assert(all[at as int].1 == field@);
        }
        let rest: usize = if count < field.len {
            field.len - count
        } else {
            0
        };
        kept = add_capped(kept, rest as u64);
        replaced = add_capped(replaced, count as u64);
        at += 1;
    }
    assert(all.take(at as int) =~= all);
    (kept, replaced)
}

fn plan_touched(touched: Touched, field_count: usize) -> (result: RowPlan)
    ensures
        result@ == atomic_plan(touched@, field_count as int),
{
    assert(touched@.whole.len() == touched.whole.items@.len());
    assert(touched@.indexed.len() == touched.indexed.items@.len());
    let whole: usize = touched.whole.items.len();
    let indexed: usize = touched.indexed.items.len();
    if whole == 0 && indexed == 0 {
        return RowPlan { choice: RowChoice::Atomic(touched.selections), preserved: 1, replaced: 0 };
    }
    let after_whole: usize = if whole < field_count {
        field_count - whole
    } else {
        0
    };
    let untouched_fields: usize = if indexed < after_whole {
        after_whole - indexed
    } else {
        0
    };
    let (preserved, replaced) = count_elements(
        &touched.indexed,
        untouched_fields as u64,
        whole as u64,
    );
    RowPlan { choice: RowChoice::Atomic(touched.selections), preserved, replaced }
}

/// Decides from where a row of the base Pak comes in the merged database.
pub fn plan_row(context: &RowContext, row: &DatabaseRow) -> (result: Result<RowPlan>)
    requires
        context.well_formed(),
    ensures
        seen(result) == row_plan(context@, *row),
{
    match indexed_conflict(context.plan, context.index, row.id, "__whole_row__") {
        Some(conflict) => {
            let input_id = match selected_input_id(conflict, context.resolutions) {
                Ok(input_id) => input_id,
                Err(error) => {
                    return Err(error);
                },
            };
            match find_donor(context.parsed, context.opened, input_id.as_str()) {
                None => Err(
                    MergeError::InvalidResolution(
                        cat3("selected whole-row input ", input_id.as_str(), " is unavailable"),
                    ),
                ),
                Some(donor) => Ok(
                    RowPlan { choice: RowChoice::Whole(donor), preserved: 0, replaced: 1 },
                ),
            }
        },
        None => match &row.units {
            Err(text) => Err(MergeError::BinaryAsset(text.clone())),
            Ok(units) => match choose_units(context, row.id, units) {
                Ok(touched) => Ok(plan_touched(touched, row.fields.len())),
                Err(error) => Err(error),
            },
        },
    }
}

proof fn donors_have_the_id(
    parsed: Seq<ParsedDbProviderView>,
    opened: Seq<OpenedPakView>,
    input_id: Seq<char>,
    at: int,
)
    requires
        0 <= at,
    ensures
        donor_at(parsed, opened, input_id, at) matches Some(found) ==> at <= found < parsed.len()
            && opened[parsed[found].input_index as int].descriptor.id == input_id,
    decreases parsed.len() - at,
{
    if at < parsed.len() && opened[parsed[at].input_index as int].descriptor.id != input_id {
        donors_have_the_id(parsed, opened, input_id, at + 1);
    }
}

/// A selection takes the fields of a unit from the input with an id.
pub open spec fn takes_from(
    context: RowContextView,
    selection: SelectionView,
    unit: AtomicGroupView,
    input_id: Seq<char>,
) -> bool {
    &&& selection.fields == unit.fields
    &&& selection.array_index == unit.array_index
    &&& selection.donor_input < context.parsed.len()
    &&& context.opened[context.parsed[selection.donor_input as int].input_index as int].descriptor.id
        == input_id
}

/// The choice for a row has a selection that takes a unit from the input with an
/// id.
pub open spec fn some_takes_from(
    context: RowContextView,
    choice: RowChoiceView,
    unit: AtomicGroupView,
    input_id: Seq<char>,
) -> bool {
    match choice {
        RowChoiceView::Whole(_) => false,
        RowChoiceView::Atomic(selections) => exists|i: int|
            0 <= i < selections.len() && takes_from(
                context,
                #[trigger] selections[i],
                unit,
                input_id,
            ),
    }
}

proof fn choices_only_add(
    touched: TouchedView,
    context: RowContextView,
    row_id: i64,
    units: Seq<AtomicGroupView>,
)
    ensures
        with_choices(touched, context, row_id, units) matches Ok(after) ==> touched.selections.len()
            <= after.selections.len() && forall|i: int|
            0 <= i < touched.selections.len() ==> after.selections[i] == #[trigger] touched.selections[i],
    decreases units.len(),
{
    if units.len() > 0 {
        match with_choice(touched, context, row_id, units[0]) {
            Err(_) => {},
            Ok(next) => {
                assert(forall|i: int|
                    0 <= i < touched.selections.len() ==> next.selections[i]
                        == #[trigger] touched.selections[i]);
                choices_only_add(next, context, row_id, units.skip(1));
            },
        }
    }
}

proof fn choices_reach_their_units(
    touched: TouchedView,
    context: RowContextView,
    row_id: i64,
    units: Seq<AtomicGroupView>,
    at: int,
    conflict: ConflictView,
    input_id: Seq<char>,
)
    requires
        context.parsed.len() <= usize::MAX,
        0 <= at < units.len(),
        conflict_in(context, row_id, units[at].id) == Some(conflict),
        conflict.blocking,
        selected_input(conflict, context.choices) == Ok::<Seq<char>, MergeErrorView>(input_id),
    ensures
        with_choices(touched, context, row_id, units) matches Ok(after) ==> exists|i: int|
            0 <= i < after.selections.len() && takes_from(
                context,
                #[trigger] after.selections[i],
                units[at],
                input_id,
            ),
    decreases units.len(),
{
    match with_choice(touched, context, row_id, units[0]) {
        Err(_) => {},
        Ok(next) => {
            let rest = units.skip(1);
            if at > 0 {
                assert(rest[at - 1] == units[at]);
                choices_reach_their_units(
                    next,
                    context,
                    row_id,
                    rest,
                    at - 1,
                    conflict,
                    input_id,
                );
            } else {
                donors_have_the_id(context.parsed, context.opened, input_id, 0);
                choices_only_add(next, context, row_id, rest);
                match with_choices(next, context, row_id, rest) {
                    Err(_) => {},
                    Ok(after) => {
                        let last = next.selections.len() - 1;
                        assert(after.selections[last] == next.selections[last]);
                        assert(takes_from(context, after.selections[last], units[0], input_id));
                    },
                }
            }
        },
    }
}

/// The choice for a row as a whole takes it from the chosen Pak.
pub proof fn chosen_rows_come_from_the_chosen_pak(
    context: RowContextView,
    row: DatabaseRow,
    conflict: ConflictView,
    input_id: Seq<char>,
)
    requires
        context.parsed.len() <= usize::MAX,
        conflict_in(context, row.id, "__whole_row__"@) == Some(conflict),
        selected_input(conflict, context.choices) == Ok::<Seq<char>, MergeErrorView>(input_id),
    ensures
        row_plan(context, row) matches Ok(plan) ==> (plan.choice matches RowChoiceView::Whole(donor)
            && donor < context.parsed.len()
            && context.opened[context.parsed[donor as int].input_index as int].descriptor.id
            == input_id),
{
    donors_have_the_id(context.parsed, context.opened, input_id, 0);
}

/// The choice for a unit of a row takes all its fields from the chosen Pak.
pub proof fn chosen_values_come_from_the_chosen_pak(
    context: RowContextView,
    row: DatabaseRow,
    unit: int,
    conflict: ConflictView,
    input_id: Seq<char>,
)
    requires
        context.parsed.len() <= usize::MAX,
        conflict_in(context, row.id, "__whole_row__"@) is None,
        row.units is Ok,
        0 <= unit < groups_of(row.units->Ok_0@).len(),
        conflict_in(context, row.id, groups_of(row.units->Ok_0@)[unit].id) == Some(conflict),
        conflict.blocking,
        selected_input(conflict, context.choices) == Ok::<Seq<char>, MergeErrorView>(input_id),
    ensures
        row_plan(context, row) matches Ok(plan) ==> some_takes_from(
            context,
            plan.choice,
            groups_of(row.units->Ok_0@)[unit],
            input_id,
        ),
{
    choices_reach_their_units(
        untouched(),
        context,
        row.id,
        groups_of(row.units->Ok_0@),
        unit,
        conflict,
        input_id,
    );
    let units = groups_of(row.units->Ok_0@);
    match with_choices(untouched(), context, row.id, units) {
        Err(_) => {},
        Ok(touched) => {
            let plan = atomic_plan(touched, row.fields@.len() as int);
            let i = choose|i: int|
                0 <= i < touched.selections.len() && takes_from(
                    context,
                    #[trigger] touched.selections[i],
                    units[unit],
                    input_id,
                );
            assert(plan.choice == RowChoiceView::Atomic(touched.selections));
            assert(takes_from(context, touched.selections[i], units[unit], input_id));
            assert(some_takes_from(context, plan.choice, units[unit], input_id));
            assert(row_plan(context, row) == Ok::<RowPlanView, MergeErrorView>(plan));
        },
    }
}

} // verus!
