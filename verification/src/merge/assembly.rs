//! The merged database: its rows, its bytes, and the header that goes with it.
use vstd::prelude::*;

use super::analyze::{add_capped, capped_sum};
use super::audit::{
    empty_audit, new_audit, record_streamed_row, recorded, recorded_rows_count_once, AuditView,
    PendingAuditView, PendingRawPreservationAudit, RawAuditAccumulator, ReadRow,
};
use super::choices::{
    conflict_in, donor_at, find_donor, plan_row, row_plan, untouched, with_choice, with_choices,
    RowChoice, RowChoiceView, RowContext, RowContextView, TouchedView,
};
use super::database::{
    indexed_row, parsed_well, row_from, AtomicGroupView, DatabaseAsset, DatabaseRow,
    ParsedDbProvider, ParsedDbProviderView,
};
use super::error::{seen, MergeError, MergeErrorView, Outcome, Result};
use super::group::{carrier_from, carrier_position, row_item};
use super::opened::{OpenedPak, OpenedPakView};
use super::progress::{reports_row, should_report_database_progress};
use super::resolve::{
    build_asset_conflict_index, indexed_conflict, selected_input, selected_input_id,
};
use super::row_ids::{
    all_ids_from, collect_row_ids, collected_ids_are_those_of_the_rows, holds_row, ids_of_rows,
};
use super::rows::groups_of;
use super::types::{
    ConflictKind, MergePlan, MergePlanView, MergeProgress, MergeProgressStage, MergeProgressView,
    ResolutionSet, ResolutionSetView,
};
use super::uasset::{patch_serial_size, patched};
use crate::lists::{append_bytes, views, views_push};
use crate::pak::reader::le32;
use crate::text::{cat2, cat3, signed_dec, signed_decimal};

verus! {

/// What stands outside this library of one row of the merged database: the bytes
/// that the merger made of the chosen fields, and how the reader reads the row.
#[derive(Debug)]
pub struct OutputRow {
    /// The row with fields of several providers, or the merger's message. Only
    /// looked at where a choice touches single fields.
    pub merged: std::result::Result<Vec<u8>, String>,
    /// The row as it is read back, or the reader's message.
    pub read: std::result::Result<ReadRow, String>,
}

/// The bytes of a row of the base Pak in the merged database.
pub open spec fn merged_row(
    context: RowContextView,
    row: DatabaseRow,
    choice: RowChoiceView,
    output: OutputRow,
) -> Outcome<Seq<u8>> {
    match choice {
        RowChoiceView::Whole(donor) => match row_from(
            context.parsed[donor as int].asset.rows@,
            row.id,
        ) {
            Some(found) => Ok(found.raw@),
            None => Err(
                MergeErrorView::InvalidPlan(
                    "selected Pak no longer contains m_id "@ + signed_dec(row.id as int),
                ),
            ),
        },
        RowChoiceView::Atomic(selections) => if selections.len() == 0 {
            Ok(row.raw@)
        } else {
            match output.merged {
                Ok(bytes) => Ok(bytes@),
                Err(text) => Err(MergeErrorView::BinaryAsset(text@)),
            }
        },
    }
}

/// What the rows so far add up to.
#[verifier::ext_equal]
pub struct BuildView {
    pub rows: Seq<u8>,
    pub audit: AuditView,
    pub preserved: u64,
    pub replaced: u64,
}

/// What the rows so far add up to.
#[derive(Debug)]
pub struct Build {
    pub rows: Vec<u8>,
    pub audit: RawAuditAccumulator,
    pub preserved: u64,
    pub replaced: u64,
}

impl View for Build {
    type V = BuildView;

    open spec fn view(&self) -> BuildView {
        BuildView {
            rows: self.rows@,
            audit: self.audit@,
            preserved: self.preserved,
            replaced: self.replaced,
        }
    }
}

/// The rows with one more of the base Pak.
pub open spec fn with_carrier_row(
    state: BuildView,
    context: RowContextView,
    carrier: int,
    row: DatabaseRow,
    output: Option<OutputRow>,
) -> Outcome<BuildView> {
    match row_plan(context, row) {
        Err(error) => Err(error),
        Ok(plan) => match output {
            None => Err(MergeErrorView::Cancelled),
            Some(output) => match merged_row(context, row, plan.choice, output) {
                Err(error) => Err(error),
                Ok(bytes) => match recorded(
                    state.audit,
                    context,
                    carrier,
                    row.id,
                    Some(row),
                    bytes,
                    output.read,
                ) {
                    Err(error) => Err(error),
                    Ok(audit) => Ok(
                        BuildView {
                            rows: state.rows + bytes,
                            audit,
                            preserved: capped_sum(state.preserved, plan.preserved),
                            replaced: capped_sum(state.replaced, plan.replaced),
                        },
                    ),
                },
            },
        },
    }
}

/// The output that belongs to a row; none where the outputs end before it.
pub open spec fn output_at(outputs: Seq<OutputRow>, at: int) -> Option<OutputRow> {
    if 0 <= at < outputs.len() {
        Some(outputs[at])
    } else {
        None
    }
}

/// The rows with those of the base Pak from `at` on.
pub open spec fn carrier_rows_from(
    state: BuildView,
    context: RowContextView,
    carrier: int,
    outputs: Seq<OutputRow>,
    at: int,
) -> Outcome<BuildView>
    decreases context.parsed[carrier].asset.rows@.len() - at,
{
    let rows = context.parsed[carrier].asset.rows@;
    if at >= rows.len() {
        Ok(state)
    } else {
        match with_carrier_row(
            state,
            context,
            carrier,
            row_from(rows, rows[at].id)->0,
            output_at(outputs, at),
        ) {
            Err(error) => Err(error),
            Ok(next) => carrier_rows_from(next, context, carrier, outputs, at + 1),
        }
    }
}

/// The ids of a list that no row has.
pub open spec fn ids_without(ids: Seq<i64>, rows: Seq<DatabaseRow>) -> Seq<i64>
    decreases ids.len(),
{
    if ids.len() == 0 {
        Seq::empty()
    } else if row_from(rows, ids.last()) is None {
        ids_without(ids.drop_last(), rows).push(ids.last())
    } else {
        ids_without(ids.drop_last(), rows)
    }
}

/// The ids of the rows that the base Pak has not, in ascending order.
pub open spec fn appended_ids(parsed: Seq<ParsedDbProviderView>, carrier: int) -> Seq<i64> {
    ids_without(all_ids_from(Seq::empty(), parsed), parsed[carrier].asset.rows@)
}

/// The first provider from `at` on that has a row.
pub open spec fn holder_from(parsed: Seq<ParsedDbProviderView>, row_id: i64, at: int) -> Option<int>
    decreases parsed.len() - at,
{
    if at >= parsed.len() {
        None
    } else if row_from(parsed[at].asset.rows@, row_id) is Some {
        Some(at)
    } else {
        holder_from(parsed, row_id, at + 1)
    }
}

/// The provider from which an added row is taken.
pub open spec fn added_row_donor(context: RowContextView, row_id: i64) -> Outcome<int> {
    match conflict_in(context, row_id, "$row"@) {
        Some(conflict) => match selected_input(conflict, context.choices) {
            Err(error) => Err(error),
            Ok(input_id) => match donor_at(context.parsed, context.opened, input_id, 0) {
                Some(donor) => Ok(donor),
                None => Err(
                    MergeErrorView::InvalidResolution(
                        "the selected Pak "@ + input_id + " is not available for this added row"@,
                    ),
                ),
            },
        },
        None => match holder_from(context.parsed, row_id, 0) {
            Some(donor) => Ok(donor),
            None => Err(
                MergeErrorView::InvalidPlan(
                    "no input contains appended row m_id "@ + signed_dec(row_id as int),
                ),
            ),
        },
    }
}

/// The rows with one that the base Pak has not.
pub open spec fn with_added_row(
    state: BuildView,
    context: RowContextView,
    carrier: int,
    row_id: i64,
    output: Option<OutputRow>,
) -> Outcome<BuildView> {
    match added_row_donor(context, row_id) {
        Err(error) => Err(error),
        Ok(donor) => match row_from(context.parsed[donor].asset.rows@, row_id) {
            None => Err(
                MergeErrorView::InvalidPlan(
                    "selected input no longer contains appended row m_id "@ + signed_dec(
                        row_id as int,
                    ),
                ),
            ),
            Some(row) => match output {
                None => Err(MergeErrorView::Cancelled),
                Some(output) => match recorded(
                    state.audit,
                    context,
                    carrier,
                    row_id,
                    None,
                    row.raw@,
                    output.read,
                ) {
                    Err(error) => Err(error),
                    Ok(audit) => Ok(
                        BuildView {
                            rows: state.rows + row.raw@,
                            audit,
                            preserved: state.preserved,
                            replaced: capped_sum(state.replaced, 1),
                        },
                    ),
                },
            },
        },
    }
}

/// The rows with the added ones. Their outputs stand in `outputs` from `from` on.
pub open spec fn added_rows_from(
    state: BuildView,
    context: RowContextView,
    carrier: int,
    ids: Seq<i64>,
    outputs: Seq<OutputRow>,
    from: int,
) -> Outcome<BuildView>
    decreases ids.len(),
{
    if ids.len() == 0 {
        Ok(state)
    } else {
        match with_added_row(state, context, carrier, ids[0], output_at(outputs, from)) {
            Err(error) => Err(error),
            Ok(next) => added_rows_from(next, context, carrier, ids.skip(1), outputs, from + 1),
        }
    }
}

/// The four bytes of a number, the lowest first.
pub open spec fn le32_bytes(value: u32) -> Seq<u8> {
    seq![
        (value % 256) as u8,
        (value / 0x100 % 256) as u8,
        (value / 0x1_0000 % 256) as u8,
        (value / 0x100_0000) as u8,
    ]
}

/// The payload of the merged database: that of the base Pak, with another row
/// list.
pub open spec fn merged_payload(asset: DatabaseAsset, header: Seq<u8>, rows: Seq<u8>) -> Seq<u8> {
    asset.payload@.take(asset.list_start as int) + header + rows + asset.payload@.skip(
        asset.list_end as int,
    )
}

/// The bytes of the merged database: those of the base Pak, with another row list
/// and the payload's length to match.
pub open spec fn merged_uexp(asset: DatabaseAsset, header: Seq<u8>, rows: Seq<u8>) -> Outcome<Seq<u8>> {
    let payload = merged_payload(asset, header, rows);
    if payload.len() > u32::MAX {
        Err(MergeErrorView::DatabaseTooLarge)
    } else {
        Ok(
            asset.prefix@.take(6) + le32_bytes(payload.len() as u32) + asset.prefix@.skip(10)
                + payload + asset.footer@ + asset.package_tag@,
        )
    }
}

fn push_le32(bytes: &mut Vec<u8>, value: u32)
    ensures
        final(bytes)@ == old(bytes)@ + le32_bytes(value),
{
    bytes.push((value % 256) as u8);
    bytes.push((value / 0x100 % 256) as u8);
    bytes.push((value / 0x1_0000 % 256) as u8);
    bytes.push((value / 0x100_0000) as u8);
    assert(bytes@ =~= old(bytes)@ + le32_bytes(value));
}

/// Puts the merged rows into the database of the base Pak.
pub fn assemble_uexp(asset: &DatabaseAsset, header: &Vec<u8>, rows: &Vec<u8>) -> (result: Result<Vec<u8>>)
    requires
        asset.well_formed(),
    ensures
        match (result, merged_uexp(*asset, header@, rows@)) {
            (Ok(bytes), Ok(wanted)) => bytes@ == wanted,
            (Err(error), Err(wanted)) => error@ == wanted,
            _ => false,
        },
{
    let source = asset.payload.as_slice();
    let mut payload: Vec<u8> = Vec::new();
    append_bytes(&mut payload, vstd::slice::slice_subrange(source, 0, asset.list_start));
    append_bytes(&mut payload, header.as_slice());
    append_bytes(&mut payload, rows.as_slice());
    append_bytes(&mut payload, vstd::slice::slice_subrange(source, asset.list_end, source.len()));
    proof {
        assert(source@.subrange(0, asset.list_start as int) =~= asset.payload@.take(
            asset.list_start as int,
        ));
        assert(source@.subrange(asset.list_end as int, source@.len() as int)
            =~= asset.payload@.skip(asset.list_end as int));
        assert(payload@ =~= merged_payload(*asset, header@, rows@));
    }
    if payload.len() as u64 > u32::MAX as u64 {
        return Err(MergeError::DatabaseTooLarge);
    }
    let length: u32 = payload.len() as u32;
    let prefix = asset.prefix.as_slice();
    let mut bytes: Vec<u8> = Vec::new();
    append_bytes(&mut bytes, vstd::slice::slice_subrange(prefix, 0, 6));
    push_le32(&mut bytes, length);
    append_bytes(&mut bytes, vstd::slice::slice_subrange(prefix, 10, prefix.len()));
    append_bytes(&mut bytes, payload.as_slice());
    append_bytes(&mut bytes, asset.footer.as_slice());
    append_bytes(&mut bytes, asset.package_tag.as_slice());
    proof {
        assert(prefix@.subrange(0, 6) =~= asset.prefix@.take(6));
        assert(prefix@.subrange(10, prefix@.len() as int) =~= asset.prefix@.skip(10));
        assert(bytes@ =~= asset.prefix@.take(6) + le32_bytes(length) + asset.prefix@.skip(10)
            + merged_payload(*asset, header@, rows@) + asset.footer@ + asset.package_tag@);
    }
    Ok(bytes)
}

proof fn row_is_found(rows: Seq<DatabaseRow>, at: int)
    requires
        0 <= at < rows.len(),
    ensures
        row_from(rows, rows[at].id) is Some,
    decreases rows.len(),
{
    if at > 0 {
        assert(rows.skip(1)[at - 1] == rows[at]);
        row_is_found(rows.skip(1), at - 1);
    }
}

proof fn donor_is_there(
    parsed: Seq<ParsedDbProviderView>,
    opened: Seq<OpenedPakView>,
    input_id: Seq<char>,
    at: int,
)
    requires
        0 <= at,
    ensures
        donor_at(parsed, opened, input_id, at) matches Some(found) ==> at <= found < parsed.len(),
    decreases parsed.len() - at,
{
    if at < parsed.len() {
        donor_is_there(parsed, opened, input_id, at + 1);
    }
}

fn take_row_bytes(context: &RowContext, row: &DatabaseRow, choice: &RowChoice, output: &OutputRow) -> (result:
    Result<Vec<u8>>)
    requires
        context.well_formed(),
        choice matches RowChoice::Whole(donor) ==> *donor < context.parsed@.len(),
    ensures
        match (result, merged_row(context@, *row, choice@, *output)) {
            (Ok(bytes), Ok(wanted)) => bytes@ == wanted,
            (Err(error), Err(wanted)) => error@ == wanted,
            _ => false,
        },
{
    match choice {
        RowChoice::Whole(donor) => {
            assert(context@.parsed[*donor as int] == context.parsed@[*donor as int]@);
            match indexed_row(&context.parsed[*donor].asset, row.id) {
                Some(found) => Ok(vstd::slice::slice_to_vec(found.raw.as_slice())),
                None => Err(
                    MergeError::InvalidPlan(
                        cat2(
                            "selected Pak no longer contains m_id ",
                            signed_decimal(row.id).as_str(),
                        ),
                    ),
                ),
            }
        },
        RowChoice::Atomic(selections) => {
            assert(views(selections@).len() == selections@.len());
            if selections.len() == 0 {
                return Ok(vstd::slice::slice_to_vec(row.raw.as_slice()));
            }
            match &output.merged {
                Ok(bytes) => Ok(vstd::slice::slice_to_vec(bytes.as_slice())),
                Err(text) => Err(MergeError::BinaryAsset(text.clone())),
            }
        },
    }
}

fn add_carrier_row(
    state: &mut Build,
    context: &RowContext,
    carrier_local: usize,
    row: &DatabaseRow,
    output: Option<&OutputRow>,
) -> (result: Result<()>)
    requires
        context.well_formed(),
        carrier_local < context.parsed@.len(),
    ensures
        match (
            result,
            with_carrier_row(
                old(state)@,
                context@,
                carrier_local as int,
                *row,
                (match output {
                    Some(output) => Some(*output),
                    None => None,
                }),
            ),
        ) {
            (Ok(_), Ok(wanted)) => final(state)@ == wanted,
            (Err(error), Err(wanted)) => error@ == wanted,
            _ => false,
        },
{
    let plan = match plan_row(context, row) {
        Ok(plan) => plan,
        Err(error) => {
            return Err(error);
        },
    };
    proof {
        match conflict_in(context@, row.id, "__whole_row__"@) {
            Some(conflict) => match selected_input(conflict, context@.choices) {
                Ok(input_id) => {
                    donor_is_there(context@.parsed, context@.opened, input_id, 0);
                },
                Err(_) => {},
            },
            None => {},
        }
        let count: usize = context.parsed.len();
        assert(context@.parsed.len() == count);
    }
    let output = match output {
        Some(output) => output,
        None => {
            return Err(MergeError::Cancelled);
        },
    };
    let bytes = match take_row_bytes(context, row, &plan.choice, output) {
        Ok(bytes) => bytes,
        Err(error) => {
            return Err(error);
        },
    };
    match record_streamed_row(
        &mut state.audit,
        context,
        carrier_local,
        row.id,
        Some(row),
        bytes.as_slice(),
        &output.read,
    ) {
        Ok(_) => {},
        Err(error) => {
            return Err(error);
        },
    }
    append_bytes(&mut state.rows, bytes.as_slice());
    state.preserved = add_capped(state.preserved, plan.preserved);
    state.replaced = add_capped(state.replaced, plan.replaced);
    Ok(())
}

fn output_of<'b>(outputs: &'b Vec<OutputRow>, at: usize) -> (result: Option<&'b OutputRow>)
    ensures
        match (result, output_at(outputs@, at as int)) {
            (Some(output), Some(wanted)) => *output == wanted,
            (None, None) => true,
            _ => false,
        },
{
    if at < outputs.len() {
        Some(&outputs[at])
    } else {
        None
    }
}

#[verifier::loop_isolation(false)]
fn add_carrier_rows(
    state: &mut Build,
    context: &RowContext,
    carrier_local: usize,
    outputs: &Vec<OutputRow>,
) -> (result: Result<()>)
    requires
        context.well_formed(),
        carrier_local < context.parsed@.len(),
    ensures
        match (
            result,
            carrier_rows_from(old(state)@, context@, carrier_local as int, outputs@, 0),
        ) {
            (Ok(_), Ok(wanted)) => final(state)@ == wanted,
            (Err(error), Err(wanted)) => error@ == wanted,
            _ => false,
        },
{
    let ghost start = state@;
    let asset = &context.parsed[carrier_local].asset;
    assert(context@.parsed[carrier_local as int].asset == *asset);
    let mut at: usize = 0;
    while at < asset.rows.len()
        invariant
            at <= asset.rows@.len(),
            carrier_rows_from(start, context@, carrier_local as int, outputs@, 0)
                == carrier_rows_from(state@, context@, carrier_local as int, outputs@, at as int),
        decreases asset.rows.len() - at,
    {
        proof {
            row_is_found(asset.rows@, at as int);
        }
        let row = match indexed_row(asset, asset.rows[at].id) {
            Some(row) => row,
            None => vstd::pervasive::unreached(),
        };
        match add_carrier_row(state, context, carrier_local, row, output_of(outputs, at)) {
            Ok(_) => {},
            Err(error) => {
                return Err(error);
            },
        }
        at += 1;
    }
    Ok(())
}

fn find_holder(parsed: &Vec<ParsedDbProvider>, row_id: i64) -> (result: Option<usize>)
    ensures
        match (result, holder_from(views(parsed@), row_id, 0)) {
            (Some(at), Some(wanted)) => at == wanted && at < parsed@.len(),
            (None, None) => true,
            _ => false,
        },
{
    let ghost all = views(parsed@);
    let mut at: usize = 0;
    while at < parsed.len()
        invariant
            at <= parsed@.len(),
            all == views(parsed@),
            holder_from(all, row_id, 0) == holder_from(all, row_id, at as int),
        decreases parsed.len() - at,
    {
        assert(all[at as int] == parsed@[at as int]@);
        if indexed_row(&parsed[at].asset, row_id).is_some() {
            return Some(at);
        }
        at += 1;
    }
    None
}

/// The provider from which an added row is taken.
pub fn donor_of_added_row(context: &RowContext, row_id: i64) -> (result: Result<usize>)
    requires
        context.well_formed(),
    ensures
        match (result, added_row_donor(context@, row_id)) {
            (Ok(donor), Ok(wanted)) => donor == wanted && donor < context.parsed@.len(),
            (Err(error), Err(wanted)) => error@ == wanted,
            _ => false,
        },
{
    match indexed_conflict(context.plan, context.index, row_id, "$row") {
        Some(conflict) => {
            let input_id = match selected_input_id(conflict, context.resolutions) {
                Ok(input_id) => input_id,
                Err(error) => {
                    return Err(error);
                },
            };
            match find_donor(context.parsed, context.opened, input_id.as_str()) {
                Some(donor) => Ok(donor),
                None => Err(
                    MergeError::InvalidResolution(
                        cat3(
                            "the selected Pak ",
                            input_id.as_str(),
                            " is not available for this added row",
                        ),
                    ),
                ),
            }
        },
        None => match find_holder(context.parsed, row_id) {
            Some(donor) => Ok(donor),
            None => Err(
                MergeError::InvalidPlan(
                    cat2(
                        "no input contains appended row m_id ",
                        signed_decimal(row_id).as_str(),
                    ),
                ),
            ),
        },
    }
}

fn add_added_row(
    state: &mut Build,
    context: &RowContext,
    carrier_local: usize,
    row_id: i64,
    output: Option<&OutputRow>,
) -> (result: Result<()>)
    requires
        context.well_formed(),
        carrier_local < context.parsed@.len(),
    ensures
        match (
            result,
            with_added_row(
                old(state)@,
                context@,
                carrier_local as int,
                row_id,
                (match output {
                    Some(output) => Some(*output),
                    None => None,
                }),
            ),
        ) {
            (Ok(_), Ok(wanted)) => final(state)@ == wanted,
            (Err(error), Err(wanted)) => error@ == wanted,
            _ => false,
        },
{
    let donor: usize = match donor_of_added_row(context, row_id) {
        Ok(donor) => donor,
        Err(error) => {
            return Err(error);
        },
    };
    assert(context@.parsed[donor as int] == context.parsed@[donor as int]@);
    let row = match indexed_row(&context.parsed[donor].asset, row_id) {
        Some(row) => row,
        None => {
            return Err(
                MergeError::InvalidPlan(
                    cat2(
                        "selected input no longer contains appended row m_id ",
                        signed_decimal(row_id).as_str(),
                    ),
                ),
            );
        },
    };
    let output = match output {
        Some(output) => output,
        None => {
            return Err(MergeError::Cancelled);
        },
    };
    match record_streamed_row(
        &mut state.audit,
        context,
        carrier_local,
        row_id,
        None,
        row.raw.as_slice(),
        &output.read,
    ) {
        Ok(_) => {},
        Err(error) => {
            return Err(error);
        },
    }
    append_bytes(&mut state.rows, row.raw.as_slice());
    state.replaced = add_capped(state.replaced, 1);
    Ok(())
}

#[verifier::loop_isolation(false)]
fn add_added_rows(
    state: &mut Build,
    context: &RowContext,
    carrier_local: usize,
    ids: &Vec<i64>,
    outputs: &Vec<OutputRow>,
    from: usize,
) -> (result: Result<()>)
    requires
        context.well_formed(),
        carrier_local < context.parsed@.len(),
        from + ids@.len() <= usize::MAX,
    ensures
        match (
            result,
            added_rows_from(
                old(state)@,
                context@,
                carrier_local as int,
                ids@,
                outputs@,
                from as int,
            ),
        ) {
            (Ok(_), Ok(wanted)) => final(state)@ == wanted,
            (Err(error), Err(wanted)) => error@ == wanted,
            _ => false,
        },
{
    let ghost start = state@;
    let mut at: usize = 0;
    assert(ids@.skip(0) =~= ids@);
    while at < ids.len()
        invariant
            at <= ids@.len(),
            added_rows_from(start, context@, carrier_local as int, ids@, outputs@, from as int)
                == added_rows_from(
                state@,
                context@,
                carrier_local as int,
                ids@.skip(at as int),
                outputs@,
                from + at,
            ),
        decreases ids.len() - at,
    {
        proof {
            assert(ids@.skip(at as int)[0] == ids@[at as int]);
            assert(ids@.skip(at as int).skip(1) =~= ids@.skip(at as int + 1));
        }
        match add_added_row(
            state,
            context,
            carrier_local,
            ids[at],
            output_of(outputs, from + at),
        ) {
            Ok(_) => {},
            Err(error) => {
                return Err(error);
            },
        }
        at += 1;
    }
    Ok(())
}

/// The ids of the rows that the base Pak has not, in ascending order.
pub fn collect_appended_ids(parsed: &Vec<ParsedDbProvider>, carrier_local: usize) -> (result: Vec<i64>)
    requires
        carrier_local < parsed@.len(),
    ensures
        result@ == appended_ids(views(parsed@), carrier_local as int),
{
    let all = collect_row_ids(parsed);
    let asset = &parsed[carrier_local].asset;
    assert(views(parsed@)[carrier_local as int].asset == *asset);
    let mut ids: Vec<i64> = Vec::new();
    let mut at: usize = 0;
    assert(all@.take(0) =~= Seq::<i64>::empty());
    while at < all.len()
        invariant
            at <= all@.len(),
            ids@ == ids_without(all@.take(at as int), asset.rows@),
        decreases all.len() - at,
    {
        proof {
            assert(all@.take(at as int + 1).drop_last() =~= all@.take(at as int));
            assert(all@.take(at as int + 1).last() == all@[at as int]);
        }
        if indexed_row(asset, all[at]).is_none() {
            ids.push(all[at]);
        }
        at += 1;
    }
    assert(all@.take(at as int) =~= all@);
    ids
}

/// A merged database.
#[derive(Debug)]
pub struct BuiltDatabase {
    pub uasset_entry: String,
    pub uexp_entry: String,
    pub uasset: Vec<u8>,
    pub uexp: Vec<u8>,
    pub raw_preserved_nodes: u64,
    pub raw_replaced_nodes: u64,
    pub raw_audit: PendingRawPreservationAudit,
    /// What was told while its rows were merged.
    pub told: Vec<MergeProgress>,
}

#[verifier::ext_equal]
pub struct BuiltDatabaseView {
    pub uasset_entry: Seq<char>,
    pub uexp_entry: Seq<char>,
    pub uasset: Seq<u8>,
    pub uexp: Seq<u8>,
    pub raw_preserved_nodes: u64,
    pub raw_replaced_nodes: u64,
    pub raw_audit: PendingAuditView,
    pub told: Seq<MergeProgressView>,
}

impl View for BuiltDatabase {
    type V = BuiltDatabaseView;

    open spec fn view(&self) -> BuiltDatabaseView {
        BuiltDatabaseView {
            uasset_entry: self.uasset_entry@,
            uexp_entry: self.uexp_entry@,
            uasset: self.uasset@,
            uexp: self.uexp@,
            raw_preserved_nodes: self.raw_preserved_nodes,
            raw_replaced_nodes: self.raw_replaced_nodes,
            raw_audit: self.raw_audit@,
            told: views(self.told@),
        }
    }
}

/// All rows of the merged database.
pub open spec fn all_rows(
    context: RowContextView,
    carrier: int,
    audit: AuditView,
    outputs: Seq<OutputRow>,
) -> Outcome<BuildView> {
    match carrier_rows_from(
        BuildView { rows: Seq::empty(), audit, preserved: 0, replaced: 0 },
        context,
        carrier,
        outputs,
        0,
    ) {
        Err(error) => Err(error),
        Ok(state) => added_rows_from(
            state,
            context,
            carrier,
            appended_ids(context.parsed, carrier),
            outputs,
            context.parsed[carrier].asset.rows@.len() as int,
        ),
    }
}

/// What a merge is built from: the conflicts and choices, and the databases.
pub open spec fn build_context(
    plan: MergePlanView,
    resolutions: ResolutionSetView,
    opened: Seq<OpenedPakView>,
    parsed: Seq<ParsedDbProviderView>,
    carrier: int,
) -> RowContextView {
    RowContextView {
        conflicts: plan.conflicts,
        choices: resolutions.choices,
        asset_path: parsed[carrier].group.base_path,
        opened,
        parsed,
    }
}

/// The merged database, once its rows are known.
pub open spec fn finished_database(
    provider: ParsedDbProviderView,
    header: Seq<u8>,
    built: BuildView,
    told: Seq<MergeProgressView>,
) -> Outcome<BuiltDatabaseView> {
    match merged_uexp(provider.asset, header, built.rows) {
        Err(error) => Err(error),
        Ok(uexp) => match patched(
            provider.uasset,
            provider.uexp_size as int,
            uexp.len() as int,
        ) {
            Err(error) => Err(error),
            Ok(uasset) => Ok(
                BuiltDatabaseView {
                    uasset_entry: provider.group.components.uasset->0,
                    uexp_entry: provider.group.components.uexp->0,
                    uasset,
                    uexp,
                    raw_preserved_nodes: built.preserved,
                    raw_replaced_nodes: built.replaced,
                    raw_audit: PendingAuditView {
                        asset_path: provider.group.base_path,
                        pak_entry_path: provider.group.components.uexp->0,
                        expected_entry_size: uexp.len() as u64,
                        audit: built.audit,
                    },
                    told,
                },
            ),
        },
    }
}

/// The merged database. `header` is the reader's header for a list of as many rows
/// as there will be; `outputs` holds what the merger and the reader made of each
/// row, and where it ends early the merge was cancelled.
pub open spec fn merged_database(
    plan: MergePlanView,
    resolutions: ResolutionSetView,
    opened: Seq<OpenedPakView>,
    parsed: Seq<ParsedDbProviderView>,
    carrier_index: usize,
    header: std::result::Result<Vec<u8>, String>,
    outputs: Seq<OutputRow>,
) -> Outcome<BuiltDatabaseView> {
    let carrier = carrier_from(parsed, carrier_index, 0);
    let provider = parsed[carrier];
    let context = build_context(plan, resolutions, opened, parsed, carrier);
    if provider.asset.rows@.len() + appended_ids(parsed, carrier).len() > usize::MAX {
        Err(MergeErrorView::DatabaseTooLarge)
    } else {
        match header {
            Err(text) => Err(MergeErrorView::BinaryAsset(text@)),
            Ok(header) => match all_rows(
                context,
                carrier,
                empty_audit(provider.group.base_path, provider.group.components.uexp->0),
                outputs,
            ) {
                Err(error) => Err(error),
                Ok(built) => finished_database(
                    provider,
                    header@,
                    built,
                    told_of_database(parsed, carrier_index),
                ),
            },
        }
    }
}

fn finish_database(
    provider: &ParsedDbProvider,
    header: &Vec<u8>,
    built: Build,
    told: Vec<MergeProgress>,
) -> (result: Result<BuiltDatabase>)
    requires
        provider.asset.well_formed(),
        provider@.group.components.uasset is Some,
        provider@.group.components.uexp is Some,
    ensures
        seen(result) == finished_database(provider@, header@, built@, views(told@)),
{
    let uexp = match assemble_uexp(&provider.asset, header, &built.rows) {
        Ok(uexp) => uexp,
        Err(error) => {
            return Err(error);
        },
    };
    let uasset = match patch_serial_size(
        provider.uasset.as_slice(),
        provider.uexp_size,
        uexp.len(),
    ) {
        Ok(uasset) => uasset,
        Err(error) => {
            return Err(error);
        },
    };
    let uasset_entry = match &provider.group.components.uasset {
        Some(path) => path.clone(),
        None => vstd::pervasive::unreached(),
    };
    let uexp_entry = match &provider.group.components.uexp {
        Some(path) => path.clone(),
        None => vstd::pervasive::unreached(),
    };
    let expected_entry_size: u64 = uexp.len() as u64;
    Ok(
        BuiltDatabase {
            uasset_entry,
            uexp_entry: uexp_entry.clone(),
            uasset,
            uexp,
            raw_preserved_nodes: built.preserved,
            raw_replaced_nodes: built.replaced,
            raw_audit: PendingRawPreservationAudit {
                asset_path: provider.group.base_path.clone(),
                pak_entry_path: uexp_entry,
                expected_entry_size,
                audit: built.audit,
            },
            told,
        },
    )
}

/// Builds the merged database.
pub fn build_merged_database(
    plan: &MergePlan,
    resolutions: &ResolutionSet,
    opened: &Vec<OpenedPak>,
    parsed: &Vec<ParsedDbProvider>,
    carrier_index: usize,
    header: &std::result::Result<Vec<u8>, String>,
    outputs: &Vec<OutputRow>,
) -> (result: Result<BuiltDatabase>)
    requires
        resolutions.choices.well_formed(),
        parsed@.len() > 0,
        parsed_well(parsed@, opened@.len()),
    ensures
        seen(result) == merged_database(
            plan@,
            resolutions@,
            views(opened@),
            views(parsed@),
            carrier_index,
            *header,
            outputs@,
        ),
{
    let carrier_local: usize = carrier_position(parsed, carrier_index);
    let provider = &parsed[carrier_local];
    assert(views(parsed@)[carrier_local as int] == provider@);
    let index = build_asset_conflict_index(plan, provider.group.base_path.as_str());
    let ids = collect_appended_ids(parsed, carrier_local);
    let rows: usize = provider.asset.rows.len();
    let told = match merged_database_reports(parsed, carrier_index) {
        Ok(told) => told,
        Err(error) => {
            return Err(error);
        },
    };
    let header = match header {
        Ok(header) => header,
        Err(text) => {
            return Err(MergeError::BinaryAsset(text.clone()));
        },
    };
    let context = RowContext { plan, index: &index, resolutions, opened, parsed };
    let ghost wanted = build_context(
        plan@,
        resolutions@,
        views(opened@),
        views(parsed@),
        carrier_local as int,
    );
    assert(context@ =~= wanted);
    let uexp_entry = match &provider.group.components.uexp {
        Some(path) => path.as_str(),
        None => vstd::pervasive::unreached(),
    };
    let mut state = Build {
        rows: Vec::new(),
        audit: new_audit(provider.group.base_path.as_str(), uexp_entry),
        preserved: 0,
        replaced: 0,
    };
    assert(state@.rows =~= Seq::<u8>::empty());
    match add_carrier_rows(&mut state, &context, carrier_local, outputs) {
        Ok(_) => {},
        Err(error) => {
            return Err(error);
        },
    }
    match add_added_rows(&mut state, &context, carrier_local, &ids, outputs, rows) {
        Ok(_) => {},
        Err(error) => {
            return Err(error);
        },
    }
    finish_database(provider, header, state, told)
}

/// The report of a database that is being built.
pub fn database_build_report(
    asset_path: &str,
    completed_rows: usize,
    total_rows: usize,
    row_id: Option<i64>,
) -> (result: MergeProgress)
    ensures
        result@ == (MergeProgressView {
            stage: MergeProgressStage::BuildingDatabase,
            completed: completed_rows as u64,
            total: total_rows as u64,
            current_item: Some(row_item(asset_path@, row_id)),
        }),
{
    let current_item = match row_id {
        Some(id) => cat3(asset_path, " · m_id ", signed_decimal(id).as_str()),
        None => asset_path.to_owned(),
    };
    MergeProgress {
        stage: MergeProgressStage::BuildingDatabase,
        completed: completed_rows as u64,
        total: total_rows as u64,
        current_item: Some(current_item),
    }
}

/// What is told of a merged database once so many of its rows are done, if
/// anything: where it starts, with its first row, and then at the rows that are due.
pub open spec fn build_report_after(asset_path: Seq<char>, ids: Seq<i64>, completed: int) -> Option<
    MergeProgressView,
> {
    if completed == 0 || reports_row(completed, ids.len() as int) {
        Some(
            MergeProgressView {
                stage: MergeProgressStage::BuildingDatabase,
                completed: completed as u64,
                total: ids.len() as u64,
                current_item: Some(
                    row_item(
                        asset_path,
                        if ids.len() == 0 {
                            None
                        } else if completed == 0 {
                            Some(ids[0])
                        } else {
                            Some(ids[completed - 1])
                        },
                    ),
                ),
            },
        )
    } else {
        None
    }
}

/// What is told of a merged database until so many of its rows are done.
pub open spec fn build_reports_until(asset_path: Seq<char>, ids: Seq<i64>, completed: int) -> Seq<
    MergeProgressView,
>
    decreases completed + 1,
{
    if completed < 0 {
        Seq::empty()
    } else {
        let before = build_reports_until(asset_path, ids, completed - 1);
        match build_report_after(asset_path, ids, completed) {
            Some(report) => before.push(report),
            None => before,
        }
    }
}

/// Everything that is told while a merged database is built: the rows of the base
/// Pak and the added rows count together, the former first.
pub fn database_build_reports(asset_path: &str, base_ids: &Vec<i64>, added_ids: &Vec<i64>) -> (result:
    Result<Vec<MergeProgress>>)
    ensures
        match result {
            Ok(reports) => base_ids@.len() + added_ids@.len() <= usize::MAX && views(reports@)
                == build_reports_until(
                asset_path@,
                base_ids@ + added_ids@,
                (base_ids@.len() + added_ids@.len()) as int,
            ),
            Err(error) => base_ids@.len() + added_ids@.len() > usize::MAX && error@
                == MergeErrorView::DatabaseTooLarge,
        },
{
    let total: usize = match base_ids.len().checked_add(added_ids.len()) {
        Some(total) => total,
        None => {
            return Err(MergeError::DatabaseTooLarge);
        },
    };
    let ghost ids = base_ids@ + added_ids@;
    let first: Option<i64> = if base_ids.len() > 0 {
        Some(base_ids[0])
    } else if added_ids.len() > 0 {
        Some(added_ids[0])
    } else {
        None
    };
    let mut reports: Vec<MergeProgress> = Vec::new();
    reports.push(database_build_report(asset_path, 0, total, first));
    proof {
        assert(build_reports_until(asset_path@, ids, -1) =~= Seq::empty());
        assert(views(reports@) =~= build_reports_until(asset_path@, ids, 0));
    }
    let mut completed: usize = 0;
    while completed < total
        invariant
            completed <= total,
            total == base_ids@.len() + added_ids@.len(),
            ids == base_ids@ + added_ids@,
            views(reports@) == build_reports_until(asset_path@, ids, completed as int),
        decreases total - completed,
    {
        let id: i64 = if completed < base_ids.len() {
            base_ids[completed]
        } else {
            added_ids[completed - base_ids.len()]
        };
        completed = completed + 1;
        if should_report_database_progress(completed, total) {
            let report = database_build_report(asset_path, completed, total, Some(id));
            proof {
                views_push(reports@, report);
            }
            reports.push(report);
        }
    }
    Ok(reports)
}

/// The ids of the rows of a merged database, in their order.
pub open spec fn merged_ids(parsed: Seq<ParsedDbProviderView>, carrier_index: usize) -> Seq<i64> {
    let carrier = carrier_from(parsed, carrier_index, 0);
    ids_of_rows(parsed[carrier].asset.rows@) + appended_ids(parsed, carrier)
}

/// Everything that is told while a database of these providers is merged.
pub open spec fn told_of_database(parsed: Seq<ParsedDbProviderView>, carrier_index: usize) -> Seq<
    MergeProgressView,
> {
    build_reports_until(
        parsed[carrier_from(parsed, carrier_index, 0)].group.base_path,
        merged_ids(parsed, carrier_index),
        merged_ids(parsed, carrier_index).len() as int,
    )
}

/// Lists what is told while a database of these providers is merged.
pub fn merged_database_reports(parsed: &Vec<ParsedDbProvider>, carrier_index: usize) -> (result: Result<
    Vec<MergeProgress>,
>)
    requires
        parsed@.len() > 0,
    ensures
        match result {
            Ok(reports) => merged_ids(views(parsed@), carrier_index).len() <= usize::MAX && views(
                reports@,
            ) == told_of_database(views(parsed@), carrier_index),
            Err(error) => merged_ids(views(parsed@), carrier_index).len() > usize::MAX && error@
                == MergeErrorView::DatabaseTooLarge,
        },
{
    let carrier: usize = carrier_position(parsed, carrier_index);
    let provider = &parsed[carrier];
    assert(views(parsed@)[carrier as int] == provider@);
    let rows = &provider.asset.rows;
    let mut base_ids: Vec<i64> = Vec::new();
    let mut at: usize = 0;
    while at < rows.len()
        invariant
            at <= rows@.len(),
            base_ids@ == ids_of_rows(rows@.take(at as int)),
        decreases rows.len() - at,
    {
        base_ids.push(rows[at].id);
        at += 1;
        assert(base_ids@ =~= ids_of_rows(rows@.take(at as int)));
    }
    assert(rows@.take(at as int) =~= rows@);
    let added_ids = collect_appended_ids(parsed, carrier);
    database_build_reports(provider.group.base_path.as_str(), &base_ids, &added_ids)
}

/// A database that was merged was told of from its first row to its last: the
/// reports count exactly the rows that its ledger counts.
pub proof fn merged_databases_are_told_row_by_row(
    plan: MergePlanView,
    resolutions: ResolutionSetView,
    opened: Seq<OpenedPakView>,
    parsed: Seq<ParsedDbProviderView>,
    carrier_index: usize,
    header: std::result::Result<Vec<u8>, String>,
    outputs: Seq<OutputRow>,
)
    ensures
        merged_database(plan, resolutions, opened, parsed, carrier_index, header, outputs) matches Ok(
            built,
        ) ==> {
            let reports = built.told;
            &&& reports == told_of_database(parsed, carrier_index)
            &&& reports.len() > 0
            &&& reports[0].completed == 0
            &&& reports.last().completed == built.raw_audit.audit.verified_rows
            &&& forall|i: int|
                0 <= i < reports.len() ==> (#[trigger] reports[i]).total
                    == built.raw_audit.audit.verified_rows
        },
{
    if merged_database(plan, resolutions, opened, parsed, carrier_index, header, outputs) is Ok {
        ledgers_count_every_row(plan, resolutions, opened, parsed, carrier_index, header, outputs);
        build_reports_count_every_row(
            parsed[carrier_from(parsed, carrier_index, 0)].group.base_path,
            merged_ids(parsed, carrier_index),
        );
    }
}

/// The reports on a merged database start at no row, count upwards, and end at the
/// last row, so that the count is complete exactly once.
pub proof fn build_reports_count_every_row(asset_path: Seq<char>, ids: Seq<i64>)
    requires
        ids.len() <= usize::MAX,
    ensures
        ({
            let reports = build_reports_until(asset_path, ids, ids.len() as int);
            &&& reports.len() > 0
            &&& reports[0].completed == 0
            &&& reports.last().completed == ids.len()
            &&& forall|i: int|
                0 <= i < reports.len() ==> (#[trigger] reports[i]).total == ids.len()
            &&& forall|i: int, j: int|
                0 <= i < j < reports.len() ==> (#[trigger] reports[i]).completed < (
                #[trigger] reports[j]).completed
        }),
{
    build_reports_ascend(asset_path, ids, ids.len() as int);
}

proof fn build_reports_ascend(asset_path: Seq<char>, ids: Seq<i64>, completed: int)
    requires
        ids.len() <= usize::MAX,
        0 <= completed <= ids.len(),
    ensures
        ({
            let reports = build_reports_until(asset_path, ids, completed);
            &&& reports.len() > 0
            &&& reports[0].completed == 0
            &&& completed == ids.len() ==> reports.last().completed == completed
            &&& forall|i: int|
                0 <= i < reports.len() ==> (#[trigger] reports[i]).total == ids.len()
                    && reports[i].completed <= completed
            &&& forall|i: int, j: int|
                0 <= i < j < reports.len() ==> (#[trigger] reports[i]).completed < (
                #[trigger] reports[j]).completed
        }),
    decreases completed,
{
    if completed > 0 {
        build_reports_ascend(asset_path, ids, completed - 1);
    } else {
        assert(build_reports_until(asset_path, ids, -1) =~= Seq::empty());
    }
}

proof fn untouched_units_select_nothing(
    context: RowContextView,
    row_id: i64,
    units: Seq<AtomicGroupView>,
)
    requires
        forall|i: int|
            0 <= i < units.len() ==> (conflict_in(
                context,
                row_id,
                (#[trigger] units[i]).id,
            ) matches Some(conflict) ==> !conflict.blocking && conflict.kind
                == ConflictKind::EncodingDrift),
    ensures
        with_choices(untouched(), context, row_id, units) == Ok::<TouchedView, MergeErrorView>(
            untouched(),
        ),
    decreases units.len(),
{
    if units.len() > 0 {
        assert(with_choice(untouched(), context, row_id, units[0]) == Ok::<
            TouchedView,
            MergeErrorView,
        >(untouched()));
        let rest = units.skip(1);
        assert forall|i: int| 0 <= i < rest.len() implies (conflict_in(
            context,
            row_id,
            (#[trigger] rest[i]).id,
        ) matches Some(conflict) ==> !conflict.blocking && conflict.kind
            == ConflictKind::EncodingDrift) by {
            assert(rest[i] == units[i + 1]);
        }
        untouched_units_select_nothing(context, row_id, rest);
    }
}

/// A row of the base Pak about which there is nothing to choose is copied byte for
/// byte.
pub proof fn untouched_rows_are_copied(context: RowContextView, row: DatabaseRow, output: OutputRow)
    requires
        conflict_in(context, row.id, "__whole_row__"@) is None,
        row.units is Ok,
        forall|i: int|
            0 <= i < groups_of(row.units->Ok_0@).len() ==> (conflict_in(
                context,
                row.id,
                (#[trigger] groups_of(row.units->Ok_0@)[i]).id,
            ) matches Some(conflict) ==> !conflict.blocking && conflict.kind
                == ConflictKind::EncodingDrift),
    ensures
        row_plan(context, row) matches Ok(plan) && plan.preserved == 1 && plan.replaced == 0
            && merged_row(context, row, plan.choice, output) == Ok::<Seq<u8>, MergeErrorView>(
            row.raw@,
        ),
{
    untouched_units_select_nothing(context, row.id, groups_of(row.units->Ok_0@));
}

/// Parts that stand in a line are found again at their places.
proof fn parts_in_line(
    head: Seq<u8>,
    size: Seq<u8>,
    rest: Seq<u8>,
    payload: Seq<u8>,
    tail: Seq<u8>,
    tag: Seq<u8>,
)
    ensures
        ({
            let whole = head + size + rest + payload + tail + tag;
            let at = head.len() + size.len();
            let from = at + rest.len();
            &&& whole.take(head.len() as int) == head
            &&& whole.subrange(head.len() as int, at as int) == size
            &&& forall|until: int|
                0 <= until <= payload.len() ==> #[trigger] whole.subrange(
                    at as int,
                    from + until,
                ) == rest + payload.take(until)
            &&& forall|first: int, until: int|
                0 <= first <= until <= payload.len() ==> #[trigger] whole.subrange(
                    from + first,
                    from + until,
                ) == payload.subrange(first, until)
            &&& forall|first: int|
                0 <= first <= payload.len() ==> #[trigger] whole.skip(from + first)
                    == payload.skip(first) + tail + tag
        }),
{
    let whole = head + size + rest + payload + tail + tag;
    let at = head.len() + size.len();
    let from = at + rest.len();
    assert(whole.take(head.len() as int) =~= head);
    assert(whole.subrange(head.len() as int, at as int) =~= size);
    assert forall|until: int| 0 <= until <= payload.len() implies #[trigger] whole.subrange(
        at as int,
        from + until,
    ) == rest + payload.take(until) by {
        assert(whole.subrange(at as int, from + until) =~= rest + payload.take(until));
    }
    assert forall|first: int, until: int| 0 <= first <= until <= payload.len() implies
        #[trigger] whole.subrange(from + first, from + until) == payload.subrange(first, until) by {
        assert(whole.subrange(from + first, from + until) =~= payload.subrange(first, until));
    }
    assert forall|first: int| 0 <= first <= payload.len() implies #[trigger] whole.skip(from + first)
        == payload.skip(first) + tail + tag by {
        assert(whole.skip(from + first) =~= payload.skip(first) + tail + tag);
    }
}

/// A merged database differs from that of the base Pak in its row list and in the
/// recorded length of its payload alone, and that length is right.
#[verifier::spinoff_prover]
#[verifier::rlimit(50)]
pub proof fn merged_databases_keep_their_shell(
    asset: DatabaseAsset,
    header: Seq<u8>,
    rows: Seq<u8>,
)
    requires
        asset.well_formed(),
    ensures
        merged_uexp(asset, header, rows) matches Ok(uexp) ==> {
            let list_len = header.len() + rows.len();
            let list_at = asset.prefix@.len() + asset.list_start;
            &&& uexp.take(6) == asset.prefix@.take(6)
            &&& le32(uexp, 6) == asset.payload@.len() - (asset.list_end - asset.list_start)
                + list_len
            &&& uexp.subrange(10, list_at) == asset.prefix@.skip(10) + asset.payload@.take(
                asset.list_start as int,
            )
            &&& uexp.subrange(list_at, list_at + list_len) == header + rows
            &&& uexp.skip(list_at + list_len) == asset.payload@.skip(asset.list_end as int)
                + asset.footer@ + asset.package_tag@
        },
{
    let payload = merged_payload(asset, header, rows);
    if payload.len() <= u32::MAX {
        let uexp = merged_uexp(asset, header, rows)->Ok_0;
        let list_len = header.len() + rows.len();
        let start = asset.list_start as int;
        let list_at = asset.prefix@.len() + start;
        let size = le32_bytes(payload.len() as u32);
        parts_in_line(
            asset.prefix@.take(6),
            size,
            asset.prefix@.skip(10),
            payload,
            asset.footer@,
            asset.package_tag@,
        );
        assert(uexp.subrange(6, 10) == size);
        assert(forall|i: int| 6 <= i < 10 ==> uexp[i] == #[trigger] uexp.subrange(6, 10)[i - 6]);
        assert(uexp[6] == size[0] && uexp[7] == size[1] && uexp[8] == size[2] && uexp[9]
            == size[3]) by {
            assert(uexp.subrange(6, 10)[0] == size[0]);
            assert(uexp.subrange(6, 10)[1] == size[1]);
            assert(uexp.subrange(6, 10)[2] == size[2]);
            assert(uexp.subrange(6, 10)[3] == size[3]);
        }
        assert(payload.take(start) =~= asset.payload@.take(start));
        assert(payload.subrange(start, start + list_len) =~= header + rows);
        assert(payload.skip(start + list_len) =~= asset.payload@.skip(asset.list_end as int));
    }
}

proof fn others_remain(ids: Seq<i64>, rows: Seq<DatabaseRow>, id: i64)
    ensures
        ids_without(ids, rows).contains(id) <==> ids.contains(id) && row_from(rows, id) is None,
    decreases ids.len(),
{
    if ids.len() > 0 {
        let rest = ids.drop_last();
        others_remain(rest, rows, id);
        let less = ids_without(rest, rows);
        if rest.contains(id) {
            let k = choose|k: int| 0 <= k < rest.len() && rest[k] == id;
            assert(ids[k] == id);
        }
        if ids.contains(id) && ids.last() != id {
            let k = choose|k: int| 0 <= k < ids.len() && ids[k] == id;
            assert(rest[k] == id);
        }
        if ids.last() == id {
            assert(ids[ids.len() - 1] == id);
        }
        if row_from(rows, ids.last()) is None {
            let more = less.push(ids.last());
            assert(ids_without(ids, rows) == more);
            assert(more[less.len() as int] == ids.last());
            if less.contains(id) {
                let k = choose|k: int| 0 <= k < less.len() && less[k] == id;
                assert(more[k] == id);
            }
            if more.contains(id) && id != ids.last() {
                let k = choose|k: int| 0 <= k < more.len() && more[k] == id;
                assert(less[k] == id);
            }
        }
    }
}

/// No row is lost: a row that some provider has is a row of the base Pak, or it is
/// added to them; and only such rows are added.
pub proof fn every_row_is_kept_or_added(parsed: Seq<ParsedDbProviderView>, carrier: int, id: i64)
    requires
        0 <= carrier < parsed.len(),
    ensures
        appended_ids(parsed, carrier).contains(id) <==> (exists|provider: int| #[trigger]
            holds_row(parsed, provider, id)) && !holds_row(parsed, carrier, id),
{
    collected_ids_are_those_of_the_rows(parsed, id);
    others_remain(all_ids_from(Seq::empty(), parsed), parsed[carrier].asset.rows@, id);
}

proof fn carrier_rows_are_counted(
    state: BuildView,
    context: RowContextView,
    carrier: int,
    outputs: Seq<OutputRow>,
    at: int,
)
    requires
        0 <= at <= context.parsed[carrier].asset.rows@.len(),
        state.audit.verified_rows + context.parsed[carrier].asset.rows@.len() - at <= u64::MAX,
    ensures
        carrier_rows_from(state, context, carrier, outputs, at) matches Ok(after)
            ==> after.audit.verified_rows == state.audit.verified_rows
            + context.parsed[carrier].asset.rows@.len() - at,
    decreases context.parsed[carrier].asset.rows@.len() - at,
{
    let rows = context.parsed[carrier].asset.rows@;
    if at < rows.len() {
        let row = row_from(rows, rows[at].id)->0;
        match with_carrier_row(state, context, carrier, row, output_at(outputs, at)) {
            Err(_) => {},
            Ok(next) => {
                let plan = row_plan(context, row)->Ok_0;
                let output = output_at(outputs, at)->0;
                let bytes = merged_row(context, row, plan.choice, output)->Ok_0;
                recorded_rows_count_once(
                    state.audit,
                    context,
                    carrier,
                    row.id,
                    Some(row),
                    bytes,
                    output.read,
                );
                carrier_rows_are_counted(next, context, carrier, outputs, at + 1);
            },
        }
    }
}

proof fn added_rows_are_counted(
    state: BuildView,
    context: RowContextView,
    carrier: int,
    ids: Seq<i64>,
    outputs: Seq<OutputRow>,
    from: int,
)
    requires
        state.audit.verified_rows + ids.len() <= u64::MAX,
    ensures
        added_rows_from(state, context, carrier, ids, outputs, from) matches Ok(after)
            ==> after.audit.verified_rows == state.audit.verified_rows + ids.len(),
    decreases ids.len(),
{
    if ids.len() > 0 {
        match with_added_row(state, context, carrier, ids[0], output_at(outputs, from)) {
            Err(_) => {},
            Ok(next) => {
                let donor = added_row_donor(context, ids[0])->Ok_0;
                let row = row_from(context.parsed[donor].asset.rows@, ids[0])->0;
                let output = output_at(outputs, from)->0;
                recorded_rows_count_once(
                    state.audit,
                    context,
                    carrier,
                    ids[0],
                    None,
                    row.raw@,
                    output.read,
                );
                added_rows_are_counted(
                    next,
                    context,
                    carrier,
                    ids.skip(1),
                    outputs,
                    from + 1,
                );
            },
        }
    }
}

/// The ledger of a merged database counts every row of it: those of the base Pak and
/// those that were added.
pub proof fn ledgers_count_every_row(
    plan: MergePlanView,
    resolutions: ResolutionSetView,
    opened: Seq<OpenedPakView>,
    parsed: Seq<ParsedDbProviderView>,
    carrier_index: usize,
    header: std::result::Result<Vec<u8>, String>,
    outputs: Seq<OutputRow>,
)
    ensures
        merged_database(plan, resolutions, opened, parsed, carrier_index, header, outputs) matches Ok(
            built,
        ) ==> {
            let carrier = carrier_from(parsed, carrier_index, 0);
            built.raw_audit.audit.verified_rows == parsed[carrier].asset.rows@.len() + appended_ids(
                parsed,
                carrier,
            ).len()
        },
{
    let carrier = carrier_from(parsed, carrier_index, 0);
    let provider = parsed[carrier];
    let context = build_context(plan, resolutions, opened, parsed, carrier);
    if provider.asset.rows@.len() + appended_ids(parsed, carrier).len() <= usize::MAX {
        let start = BuildView {
            rows: Seq::empty(),
            audit: empty_audit(provider.group.base_path, provider.group.components.uexp->0),
            preserved: 0,
            replaced: 0,
        };
        carrier_rows_are_counted(start, context, carrier, outputs, 0);
        match carrier_rows_from(start, context, carrier, outputs, 0) {
            Err(_) => {},
            Ok(state) => {
                added_rows_are_counted(
                    state,
                    context,
                    carrier,
                    appended_ids(parsed, carrier),
                    outputs,
                    provider.asset.rows@.len() as int,
                );
            },
        }
    }
}

} // verus!
