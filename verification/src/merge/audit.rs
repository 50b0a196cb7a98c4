//! The ledger of a merged database: what each of its rows keeps of the base Pak,
//! and what a choice replaced.
use vstd::prelude::*;
use vstd::utf8::encode_utf8;

use super::analyze::capped_sum;
use super::choices::{conflict_in, donor_at, find_donor, RowContext, RowContextView};
use super::database::{
    row_from, indexed_row, same_unit, AtomicGroup, AtomicGroupView, DatabaseRow, FieldValue,
    RowUnit,
};
use super::error::{seen, unverified, MergeError, MergeErrorView, Outcome, Result};
use super::ids::{
    be64, bytes_of, folded, framed, is_digest, push_be64, sha256_hex, sha256_text, sort_key, update_framed,
    update_framed_text,
};
use super::resolve::{indexed_conflict, selected_input, selected_input_id};
use super::rows::{find_unit, groups_of, unit_from, unit_of};
use super::types::{
    ConflictKind, RawPreservationAssetAudit, RawPreservationAssetAuditView,
};
use crate::lists::{append_bytes, views, views_push};
use crate::ordered::{get, put, OrderedMap};
use crate::pak::archive::{PakEntryInventory, PakEntryInventoryView, PakInventory};
use crate::text::{cat2, cat3, cat4, cat5, dec, decimal, same_text, signed_dec, signed_decimal};

verus! {

/// A row of the merged database as the reader reads it back.
#[derive(Debug)]
pub struct ReadRow {
    /// The row's id, or the reader's message.
    pub id: std::result::Result<i64, String>,
    /// The values of the units of the base Pak's row.
    pub units: Vec<RowUnit>,
}

/// What is known of the rows that were merged so far.
#[derive(Debug)]
pub struct RawAuditAccumulator {
    /// The bytes over which the digest of the ledger is taken.
    pub ledger: Vec<u8>,
    pub verified_rows: u64,
    pub verified_units: u64,
    pub preserved_nodes: u64,
    pub replaced_nodes: u64,
}

#[verifier::ext_equal]
pub struct AuditView {
    pub ledger: Seq<u8>,
    pub verified_rows: u64,
    pub verified_units: u64,
    pub preserved_nodes: u64,
    pub replaced_nodes: u64,
}

impl View for RawAuditAccumulator {
    type V = AuditView;

    open spec fn view(&self) -> AuditView {
        AuditView {
            ledger: self.ledger@,
            verified_rows: self.verified_rows,
            verified_units: self.verified_units,
            preserved_nodes: self.preserved_nodes,
            replaced_nodes: self.replaced_nodes,
        }
    }
}

/// The ledger of a database before its first row.
pub open spec fn empty_audit(asset_path: Seq<char>, uexp_entry: Seq<char>) -> AuditView {
    AuditView {
        ledger: encode_utf8("PAK-MERGER-RAW-PRESERVATION-ASSET-LEDGER-V1"@) + framed(
            encode_utf8(folded(asset_path)),
        ) + framed(encode_utf8(folded(uexp_entry))),
        verified_rows: 0,
        verified_units: 0,
        preserved_nodes: 0,
        replaced_nodes: 0,
    }
}

pub fn new_audit(asset_path: &str, uexp_entry: &str) -> (result: RawAuditAccumulator)
    ensures
        result@ == empty_audit(asset_path@, uexp_entry@),
{
    let mut ledger = bytes_of("PAK-MERGER-RAW-PRESERVATION-ASSET-LEDGER-V1");
    update_framed_text(&mut ledger, sort_key(asset_path).as_str());
    update_framed_text(&mut ledger, sort_key(uexp_entry).as_str());
    RawAuditAccumulator {
        ledger,
        verified_rows: 0,
        verified_units: 0,
        preserved_nodes: 0,
        replaced_nodes: 0,
    }
}

/// The start of the bytes over which a unit's digest is taken.
pub open spec fn unit_head(unit: AtomicGroupView) -> Outcome<Seq<u8>> {
    let head = encode_utf8("PAK-MERGER-RAW-PRESERVATION-ATOMIC-UNIT-V1"@) + framed(
        encode_utf8(unit.id),
    );
    match unit.array_index {
        Some(index) => match unit.expected_array_len {
            Some(len) => Ok(head + seq![1u8] + be64(index as u64) + be64(len as u64)),
            None => unverified(
                "indexed stored-data check "@ + unit.id + " has no expected length"@,
            ),
        },
        None => Ok(head + seq![0u8]),
    }
}

/// The bytes of a unit's values, each under the name of its field.
pub open spec fn values_from(
    done: Seq<u8>,
    unit: AtomicGroupView,
    values: Seq<std::result::Result<FieldValue, String>>,
    at: int,
) -> Outcome<Seq<u8>>
    decreases unit.fields.len() - at,
{
    if at >= unit.fields.len() {
        Ok(done)
    } else if at >= values.len() {
        Err(MergeErrorView::BinaryAsset("the row has no values for "@ + unit.id))
    } else {
        match values[at] {
            Err(text) => Err(MergeErrorView::BinaryAsset(text@)),
            Ok(value) => values_from(
                done + framed(encode_utf8(unit.fields[at])) + framed(value.raw@),
                unit,
                values,
                at + 1,
            ),
        }
    }
}

/// The digest of a unit's values as they are stored.
pub open spec fn unit_digest(
    unit: AtomicGroupView,
    values: Outcome<Seq<std::result::Result<FieldValue, String>>>,
) -> Outcome<Seq<char>> {
    match unit_head(unit) {
        Err(error) => Err(error),
        Ok(head) => match values {
            Err(error) => Err(error),
            Ok(values) => match values_from(head, unit, values, 0) {
                Err(error) => Err(error),
                Ok(bytes) => Ok(sha256_text(bytes)),
            },
        },
    }
}

fn make_unit_head(unit: &AtomicGroup) -> (result: Result<Vec<u8>>)
    ensures
        match (result, unit_head(unit@)) {
            (Ok(bytes), Ok(wanted)) => bytes@ == wanted,
            (Err(error), Err(wanted)) => error@ == wanted,
            _ => false,
        },
{
    let mut bytes = bytes_of("PAK-MERGER-RAW-PRESERVATION-ATOMIC-UNIT-V1");
    update_framed_text(&mut bytes, unit.id.as_str());
    let ghost head = bytes@;
    match unit.array_index {
        Some(index) => match unit.expected_array_len {
            Some(len) => {
                bytes.push(1);
                push_be64(&mut bytes, index as u64);
                push_be64(&mut bytes, len as u64);
                assert(bytes@ =~= head + seq![1u8] + be64(index as u64) + be64(len as u64));
                Ok(bytes)
            },
            None => Err(
                MergeError::Verification(
                    cat3(
                        "indexed stored-data check ",
                        unit.id.as_str(),
                        " has no expected length",
                    ),
                ),
            ),
        },
        None => {
            bytes.push(0);
            assert(bytes@ =~= head + seq![0u8]);
            Ok(bytes)
        },
    }
}

#[verifier::loop_isolation(false)]
fn append_values(
    start: Vec<u8>,
    unit: &AtomicGroup,
    values: &Vec<std::result::Result<FieldValue, String>>,
) -> (result: Result<Vec<u8>>)
    ensures
        match (result, values_from(start@, unit@, values@, 0)) {
            (Ok(bytes), Ok(wanted)) => bytes@ == wanted,
            (Err(error), Err(wanted)) => error@ == wanted,
            _ => false,
        },
{
    let ghost before = start@;
    let mut bytes = start;
    let mut at: usize = 0;
    while at < unit.fields.len()
        invariant
            at <= unit.fields@.len(),
            values_from(before, unit@, values@, 0) == values_from(
                bytes@,
                unit@,
                values@,
                at as int,
            ),
        decreases unit.fields.len() - at,
    {
        assert(unit@.fields[at as int] == unit.fields@[at as int]@);
        if at >= values.len() {
            return Err(
                MergeError::BinaryAsset(cat2("the row has no values for ", unit.id.as_str())),
            );
        }
        match &values[at] {
            Err(text) => {
                return Err(MergeError::BinaryAsset(text.clone()));
            },
            Ok(value) => {
                update_framed_text(&mut bytes, unit.fields[at].as_str());
                update_framed(&mut bytes, value.raw.as_slice());
            },
        }
        at += 1;
    }
    Ok(bytes)
}

/// The digest of a unit's values as they are stored.
pub fn raw_atomic_audit_digest(
    unit: &AtomicGroup,
    values: &Vec<std::result::Result<FieldValue, String>>,
) -> (result: Result<String>)
    ensures
        seen(result) == unit_digest(unit@, Ok(values@)),
{
    let head = match make_unit_head(unit) {
        Ok(head) => head,
        Err(error) => {
            return Err(error);
        },
    };
    match append_values(head, unit, values) {
        Ok(bytes) => Ok(sha256_hex(bytes.as_slice())),
        Err(error) => Err(error),
    }
}

/// The values of a unit in a row.
pub open spec fn values_in(row: DatabaseRow, unit: AtomicGroupView) -> Outcome<
    Seq<std::result::Result<FieldValue, String>>,
> {
    match unit_of(row, unit) {
        Ok(found) => Ok(found.values@),
        Err(error) => Err(error),
    }
}

/// The digest of a unit's values in a row of a provider.
pub open spec fn row_digest(row: DatabaseRow, unit: AtomicGroupView) -> Outcome<Seq<char>> {
    unit_digest(unit, values_in(row, unit))
}

fn raw_atomic_audit_digest_from_row(row: &DatabaseRow, unit: &AtomicGroup) -> (result: Result<String>)
    ensures
        seen(result) == row_digest(*row, unit@),
{
    match make_unit_head(unit) {
        Ok(_) => {},
        Err(error) => {
            return Err(error);
        },
    }
    match find_unit(row, unit) {
        Ok(found) => raw_atomic_audit_digest(unit, &found.values),
        Err(error) => Err(error),
    }
}

/// The digest of a unit's values in a row that was read back.
pub open spec fn read_digest(row: ReadRow, unit: AtomicGroupView) -> Outcome<Seq<char>> {
    unit_digest(
        unit,
        match unit_from(row.units@, unit) {
            Some(found) => Ok(found.values@),
            None => Err(MergeErrorView::BinaryAsset("the row has no values for "@ + unit.id)),
        },
    )
}

fn digest_of_read(row: &ReadRow, unit: &AtomicGroup) -> (result: Result<String>)
    ensures
        seen(result) == read_digest(*row, unit@),
{
    match make_unit_head(unit) {
        Ok(_) => {},
        Err(error) => {
            return Err(error);
        },
    }
    let mut at: usize = 0;
    assert(row.units@.skip(0) =~= row.units@);
    while at < row.units.len()
        invariant
            at <= row.units@.len(),
            unit_head(unit@) is Ok,
            unit_from(row.units@, unit@) == unit_from(row.units@.skip(at as int), unit@),
        decreases row.units.len() - at,
    {
        proof {
            assert(row.units@.skip(at as int)[0] == row.units@[at as int]);
            assert(row.units@.skip(at as int).skip(1) =~= row.units@.skip(at as int + 1));
        }
        if same_unit(&row.units[at].group, unit) {
            return raw_atomic_audit_digest(unit, &row.units[at].values);
        }
        at += 1;
    }
    Err(MergeError::BinaryAsset(cat2("the row has no values for ", unit.id.as_str())))
}

/// The digest that a unit must have in the merged row, and whether a choice
/// replaced it.
pub open spec fn expected_digest(
    context: RowContextView,
    carrier: int,
    row: DatabaseRow,
    unit: AtomicGroupView,
) -> Outcome<(Seq<char>, bool)> {
    let kept = match row_digest(row, unit) {
        Ok(digest) => Ok((digest, false)),
        Err(error) => Err(error),
    };
    match conflict_in(context, row.id, unit.id) {
        None => kept,
        Some(conflict) => if conflict.kind == ConflictKind::EncodingDrift {
            kept
        } else {
            match selected_input(conflict, context.choices) {
                Err(error) => Err(error),
                Ok(selected) => if selected == carrier_id(context, carrier) {
                    kept
                } else {
                    donor_digest(context, row.id, unit, selected)
                },
            }
        },
    }
}

/// The id of the base Pak.
pub open spec fn carrier_id(context: RowContextView, carrier: int) -> Seq<char> {
    context.opened[context.parsed[carrier].input_index as int].descriptor.id
}

/// The digest of a unit in the row of the input that was chosen for it.
pub open spec fn donor_digest(
    context: RowContextView,
    row_id: i64,
    unit: AtomicGroupView,
    selected: Seq<char>,
) -> Outcome<(Seq<char>, bool)> {
    match donor_at(context.parsed, context.opened, selected, 0) {
        None => unverified(
            "selected Pak "@ + selected + " is unavailable while checking stored data for "@
                + context.asset_path,
        ),
        Some(donor) => match row_from(context.parsed[donor].asset.rows@, row_id) {
            None => unverified(
                "selected Pak "@ + selected + " has no row "@ + signed_dec(row_id as int) + (
                " while checking stored data for "@ + context.asset_path),
            ),
            Some(found) => match row_digest(found, unit) {
                Ok(digest) => Ok((digest, true)),
                Err(error) => Err(error),
            },
        },
    }
}

fn digest_of_donor(context: &RowContext, row_id: i64, unit: &AtomicGroup, selected: &str) -> (result:
    Result<(String, bool)>)
    requires
        context.well_formed(),
    ensures
        match (result, donor_digest(context@, row_id, unit@, selected@)) {
            (Ok(found), Ok(wanted)) => found.0@ == wanted.0 && found.1 == wanted.1,
            (Err(error), Err(wanted)) => error@ == wanted,
            _ => false,
        },
{
    match find_donor(context.parsed, context.opened, selected) {
        None => Err(
            MergeError::Verification(
                cat4(
                    "selected Pak ",
                    selected,
                    " is unavailable while checking stored data for ",
                    context.index.asset_path.as_str(),
                ),
            ),
        ),
        Some(donor) => {
            assert(context@.parsed[donor as int] == context.parsed@[donor as int]@);
            match indexed_row(&context.parsed[donor].asset, row_id) {
                None => Err(
                    MergeError::Verification(
                        cat5(
                            "selected Pak ",
                            selected,
                            " has no row ",
                            signed_decimal(row_id).as_str(),
                            cat2(
                                " while checking stored data for ",
                                context.index.asset_path.as_str(),
                            ).as_str(),
                        ),
                    ),
                ),
                Some(found) => match raw_atomic_audit_digest_from_row(found, unit) {
                    Ok(digest) => Ok((digest, true)),
                    Err(error) => Err(error),
                },
            }
        },
    }
}

pub fn expected_atomic_audit_digest(
    context: &RowContext,
    carrier_local: usize,
    row: &DatabaseRow,
    unit: &AtomicGroup,
) -> (result: Result<(String, bool)>)
    requires
        context.well_formed(),
        carrier_local < context.parsed@.len(),
    ensures
        match (result, expected_digest(context@, carrier_local as int, *row, unit@)) {
            (Ok(found), Ok(wanted)) => found.0@ == wanted.0 && found.1 == wanted.1,
            (Err(error), Err(wanted)) => error@ == wanted,
            _ => false,
        },
{
    proof {
        let provider = context.parsed@[carrier_local as int];
        assert(context@.parsed[carrier_local as int] == provider@);
        assert(provider.input_index < context.opened@.len());
        assert(context@.opened[provider.input_index as int]
            == context.opened@[provider.input_index as int]@);
    }
    match indexed_conflict(context.plan, context.index, row.id, unit.id.as_str()) {
        None => {},
        Some(conflict) => {
            let drifts = match conflict.kind {
                ConflictKind::EncodingDrift => true,
                _ => false,
            };
            if !drifts {
                let selected = match selected_input_id(conflict, context.resolutions) {
                    Ok(selected) => selected,
                    Err(error) => {
                        return Err(error);
                    },
                };
                let index: usize = context.parsed[carrier_local].input_index;
                let carrier = context.opened[index].descriptor.id.as_str();
                if !same_text(selected.as_str(), carrier) {
                    return digest_of_donor(context, row.id, unit, selected.as_str());
                }
            }
        },
    }
    match raw_atomic_audit_digest_from_row(row, unit) {
        Ok(digest) => Ok((digest, false)),
        Err(error) => Err(error),
    }
}

/// The ledger with one more unit.
pub open spec fn with_unit(
    audit: AuditView,
    context: RowContextView,
    carrier: int,
    row: DatabaseRow,
    read: ReadRow,
    unit: AtomicGroupView,
) -> Outcome<AuditView> {
    match expected_digest(context, carrier, row, unit) {
        Err(error) => Err(error),
        Ok(expected) => match read_digest(read, unit) {
            Err(error) => Err(error),
            Ok(found) => if expected.0 != found {
                unverified(
                    "linked-value storage mismatch for "@ + context.asset_path + " m_id="@
                        + signed_dec(row.id as int) + (" "@ + unit.id + ": expected "@ + expected.0
                        + (", built "@ + found)),
                )
            } else {
                Ok(entered_unit(audit, row.id, unit.id, expected.0, expected.1))
            },
        },
    }
}

pub open spec fn entered_unit(
    audit: AuditView,
    row_id: i64,
    unit_id: Seq<char>,
    digest: Seq<char>,
    replaced: bool,
) -> AuditView {
    AuditView {
        ledger: audit.ledger + framed(encode_utf8("atomic-unit"@)) + framed(
            encode_utf8(signed_dec(row_id as int)),
        ) + framed(encode_utf8(unit_id)) + framed(encode_utf8(digest)) + framed(
            encode_utf8(
                if replaced {
                    "donor"@
                } else {
                    "carrier"@
                },
            ),
        ),
        verified_units: capped_sum(audit.verified_units, 1),
        replaced_nodes: if replaced {
            capped_sum(audit.replaced_nodes, 1)
        } else {
            audit.replaced_nodes
        },
        preserved_nodes: if replaced {
            audit.preserved_nodes
        } else {
            capped_sum(audit.preserved_nodes, 1)
        },
        verified_rows: audit.verified_rows,
    }
}

/// The ledger with the units of a row.
pub open spec fn with_units(
    audit: AuditView,
    context: RowContextView,
    carrier: int,
    row: DatabaseRow,
    read: ReadRow,
    units: Seq<AtomicGroupView>,
) -> Outcome<AuditView>
    decreases units.len(),
{
    if units.len() == 0 {
        Ok(audit)
    } else {
        match with_unit(audit, context, carrier, row, read, units[0]) {
            Err(error) => Err(error),
            Ok(next) => with_units(next, context, carrier, row, read, units.skip(1)),
        }
    }
}

/// The ledger with a row as such.
pub open spec fn entered_row(audit: AuditView, row_id: i64, bytes: Seq<u8>) -> AuditView {
    AuditView {
        ledger: audit.ledger + framed(encode_utf8("row"@)) + framed(
            encode_utf8(signed_dec(row_id as int)),
        ) + framed(encode_utf8(sha256_text(bytes))),
        verified_rows: capped_sum(audit.verified_rows, 1),
        ..audit
    }
}

/// The ledger with a row that was kept or replaced as a whole.
pub open spec fn entered_whole(audit: AuditView, mark: Seq<char>, replaced: bool) -> AuditView {
    AuditView {
        ledger: audit.ledger + framed(encode_utf8(mark)),
        replaced_nodes: if replaced {
            capped_sum(audit.replaced_nodes, 1)
        } else {
            audit.replaced_nodes
        },
        preserved_nodes: if replaced {
            audit.preserved_nodes
        } else {
            capped_sum(audit.preserved_nodes, 1)
        },
        ..audit
    }
}

/// The ledger with what became of a row.
pub open spec fn judged_row(
    audit: AuditView,
    context: RowContextView,
    carrier: int,
    row_id: i64,
    row: Option<DatabaseRow>,
    read: ReadRow,
) -> Outcome<AuditView> {
    match row {
        None => Ok(entered_whole(audit, "appended-row"@, true)),
        Some(row) => match conflict_in(context, row_id, "__whole_row__"@) {
            Some(conflict) => match selected_input(conflict, context.choices) {
                Err(error) => Err(error),
                Ok(selected) => if selected == carrier_id(context, carrier) {
                    Ok(entered_whole(audit, "whole-row-carrier"@, false))
                } else {
                    Ok(entered_whole(audit, "whole-row-donor"@, true))
                },
            },
            None => match row.units {
                Err(text) => Err(MergeErrorView::BinaryAsset(text@)),
                Ok(units) => if units@.len() == 0 {
                    Ok(entered_whole(audit, "whole-row-no-profile-units"@, false))
                } else {
                    with_units(audit, context, carrier, row, read, groups_of(units@))
                },
            },
        },
    }
}

/// The ledger with a row of the merged database. `row` is the row of the base Pak,
/// where it has one.
pub open spec fn recorded(
    audit: AuditView,
    context: RowContextView,
    carrier: int,
    row_id: i64,
    row: Option<DatabaseRow>,
    bytes: Seq<u8>,
    read: std::result::Result<ReadRow, String>,
) -> Outcome<AuditView> {
    match read {
        Err(text) => Err(MergeErrorView::BinaryAsset(text@)),
        Ok(read) => match read.id {
            Err(text) => unverified(
                "a row has an invalid logical m_id while checking stored data: "@ + text@,
            ),
            Ok(found) => if found != row_id {
                unverified(
                    "stored row ID mismatch for "@ + context.asset_path + ": expected "@
                        + signed_dec(row_id as int) + (", built "@ + signed_dec(found as int)),
                )
            } else {
                judged_row(
                    entered_row(audit, row_id, bytes),
                    context,
                    carrier,
                    row_id,
                    row,
                    read,
                )
            },
        },
    }
}

fn one_more(count: u64) -> (result: u64)
    ensures
        result == capped_sum(count, 1),
{
    if count < u64::MAX {
        count + 1
    } else {
        count
    }
}

fn enter_whole(audit: &mut RawAuditAccumulator, mark: &str, replaced: bool)
    ensures
        final(audit)@ == entered_whole(old(audit)@, mark@, replaced),
{
    update_framed_text(&mut audit.ledger, mark);
    if replaced {
        audit.replaced_nodes = one_more(audit.replaced_nodes);
    } else {
        audit.preserved_nodes = one_more(audit.preserved_nodes);
    }
}

fn enter_unit(
    audit: &mut RawAuditAccumulator,
    row_id: i64,
    unit_id: &str,
    digest: &str,
    replaced: bool,
)
    ensures
        final(audit)@ == entered_unit(old(audit)@, row_id, unit_id@, digest@, replaced),
{
    update_framed_text(&mut audit.ledger, "atomic-unit");
    update_framed_text(&mut audit.ledger, signed_decimal(row_id).as_str());
    update_framed_text(&mut audit.ledger, unit_id);
    update_framed_text(&mut audit.ledger, digest);
    if replaced {
        audit.replaced_nodes = one_more(audit.replaced_nodes);
        update_framed_text(&mut audit.ledger, "donor");
    } else {
        audit.preserved_nodes = one_more(audit.preserved_nodes);
        update_framed_text(&mut audit.ledger, "carrier");
    }
    audit.verified_units = one_more(audit.verified_units);
}

fn record_unit(
    audit: &mut RawAuditAccumulator,
    context: &RowContext,
    carrier_local: usize,
    row: &DatabaseRow,
    read: &ReadRow,
    unit: &AtomicGroup,
) -> (result: Result<()>)
    requires
        context.well_formed(),
        carrier_local < context.parsed@.len(),
    ensures
        match (
            result,
            with_unit(old(audit)@, context@, carrier_local as int, *row, *read, unit@),
        ) {
            (Ok(_), Ok(wanted)) => final(audit)@ == wanted,
            (Err(error), Err(wanted)) => error@ == wanted,
            _ => false,
        },
{
    let (expected, replaced) = match expected_atomic_audit_digest(
        context,
        carrier_local,
        row,
        unit,
    ) {
        Ok(found) => found,
        Err(error) => {
            return Err(error);
        },
    };
    let found = match digest_of_read(read, unit) {
        Ok(found) => found,
        Err(error) => {
            return Err(error);
        },
    };
    if !same_text(expected.as_str(), found.as_str()) {
        let built = cat2(", built ", found.as_str());
        return Err(
            MergeError::Verification(
                cat5(
                    "linked-value storage mismatch for ",
                    context.index.asset_path.as_str(),
                    " m_id=",
                    signed_decimal(row.id).as_str(),
                    cat5(
                        " ",
                        unit.id.as_str(),
                        ": expected ",
                        expected.as_str(),
                        built.as_str(),
                    ).as_str(),
                ),
            ),
        );
    }
    enter_unit(audit, row.id, unit.id.as_str(), expected.as_str(), replaced);
    Ok(())
}

#[verifier::loop_isolation(false)]
fn record_units(
    audit: &mut RawAuditAccumulator,
    context: &RowContext,
    carrier_local: usize,
    row: &DatabaseRow,
    read: &ReadRow,
    units: &Vec<RowUnit>,
) -> (result: Result<()>)
    requires
        context.well_formed(),
        carrier_local < context.parsed@.len(),
    ensures
        match (
            result,
            with_units(
                old(audit)@,
                context@,
                carrier_local as int,
                *row,
                *read,
                groups_of(units@),
            ),
        ) {
            (Ok(_), Ok(wanted)) => final(audit)@ == wanted,
            (Err(error), Err(wanted)) => error@ == wanted,
            _ => false,
        },
{
    let ghost start = audit@;
    let ghost all = groups_of(units@);
    let mut at: usize = 0;
    assert(all.skip(0) =~= all);
    while at < units.len()
        invariant
            at <= units@.len(),
            with_units(start, context@, carrier_local as int, *row, *read, all) == with_units(
                audit@,
                context@,
                carrier_local as int,
                *row,
                *read,
                all.skip(at as int),
            ),
        decreases units.len() - at,
    {
        proof {
            assert(all.skip(at as int)[0] == units@[at as int].group@);
            assert(all.skip(at as int).skip(1) =~= all.skip(at as int + 1));
        }
        match record_unit(audit, context, carrier_local, row, read, &units[at].group) {
            Ok(_) => {},
            Err(error) => {
                return Err(error);
            },
        }
        at += 1;
    }
    Ok(())
}

fn judge_row(
    audit: &mut RawAuditAccumulator,
    context: &RowContext,
    carrier_local: usize,
    row_id: i64,
    row: Option<&DatabaseRow>,
    read: &ReadRow,
) -> (result: Result<()>)
    requires
        context.well_formed(),
        carrier_local < context.parsed@.len(),
    ensures
        match (
            result,
            judged_row(
                old(audit)@,
                context@,
                carrier_local as int,
                row_id,
                (match row {
                    Some(row) => Some(*row),
                    None => None,
                }),
                *read,
            ),
        ) {
            (Ok(_), Ok(wanted)) => final(audit)@ == wanted,
            (Err(error), Err(wanted)) => error@ == wanted,
            _ => false,
        },
{
    proof {
        let provider = context.parsed@[carrier_local as int];
        assert(context@.parsed[carrier_local as int] == provider@);
        assert(provider.input_index < context.opened@.len());
        assert(context@.opened[provider.input_index as int]
            == context.opened@[provider.input_index as int]@);
    }
    let row = match row {
        None => {
            enter_whole(audit, "appended-row", true);
            return Ok(());
        },
        Some(row) => row,
    };
    match indexed_conflict(context.plan, context.index, row_id, "__whole_row__") {
        Some(conflict) => {
            let selected = match selected_input_id(conflict, context.resolutions) {
                Ok(selected) => selected,
                Err(error) => {
                    return Err(error);
                },
            };
            let index: usize = context.parsed[carrier_local].input_index;
            if same_text(selected.as_str(), context.opened[index].descriptor.id.as_str()) {
                enter_whole(audit, "whole-row-carrier", false);
            } else {
                enter_whole(audit, "whole-row-donor", true);
            }
            Ok(())
        },
        None => match &row.units {
            Err(text) => Err(MergeError::BinaryAsset(text.clone())),
            Ok(units) => {
                if units.len() == 0 {
                    enter_whole(audit, "whole-row-no-profile-units", false);
                    return Ok(());
                }
                record_units(audit, context, carrier_local, row, read, units)
            },
        },
    }
}

/// Enters a row of the merged database into its ledger, and checks that it keeps
/// what no choice replaced. `read` is what the reader makes of the row's bytes.
pub fn record_streamed_row(
    audit: &mut RawAuditAccumulator,
    context: &RowContext,
    carrier_local: usize,
    row_id: i64,
    row: Option<&DatabaseRow>,
    bytes: &[u8],
    read: &std::result::Result<ReadRow, String>,
) -> (result: Result<()>)
    requires
        context.well_formed(),
        carrier_local < context.parsed@.len(),
    ensures
        match (
            result,
            recorded(
                old(audit)@,
                context@,
                carrier_local as int,
                row_id,
                (match row {
                    Some(row) => Some(*row),
                    None => None,
                }),
                bytes@,
                *read,
            ),
        ) {
            (Ok(_), Ok(wanted)) => final(audit)@ == wanted,
            (Err(error), Err(wanted)) => error@ == wanted,
            _ => false,
        },
{
    let read = match read {
        Ok(read) => read,
        Err(text) => {
            return Err(MergeError::BinaryAsset(text.clone()));
        },
    };
    let found: i64 = match &read.id {
        Ok(found) => *found,
        Err(text) => {
            return Err(
                MergeError::Verification(
                    cat2(
                        "a row has an invalid logical m_id while checking stored data: ",
                        text.as_str(),
                    ),
                ),
            );
        },
    };
    if found != row_id {
        return Err(
            MergeError::Verification(
                cat5(
                    "stored row ID mismatch for ",
                    context.index.asset_path.as_str(),
                    ": expected ",
                    signed_decimal(row_id).as_str(),
                    cat2(", built ", signed_decimal(found).as_str()).as_str(),
                ),
            ),
        );
    }
    update_framed_text(&mut audit.ledger, "row");
    update_framed_text(&mut audit.ledger, signed_decimal(row_id).as_str());
    update_framed_text(&mut audit.ledger, sha256_hex(bytes).as_str());
    audit.verified_rows = one_more(audit.verified_rows);
    judge_row(audit, context, carrier_local, row_id, row, read)
}

/// A ledger that waits for the finished Pak.
#[derive(Debug)]
pub struct PendingRawPreservationAudit {
    pub asset_path: String,
    pub pak_entry_path: String,
    pub expected_entry_size: u64,
    pub audit: RawAuditAccumulator,
}

#[verifier::ext_equal]
pub struct PendingAuditView {
    pub asset_path: Seq<char>,
    pub pak_entry_path: Seq<char>,
    pub expected_entry_size: u64,
    pub audit: AuditView,
}

impl View for PendingRawPreservationAudit {
    type V = PendingAuditView;

    open spec fn view(&self) -> PendingAuditView {
        PendingAuditView {
            asset_path: self.asset_path@,
            pak_entry_path: self.pak_entry_path@,
            expected_entry_size: self.expected_entry_size,
            audit: self.audit@,
        }
    }
}

/// The last file whose path has a key.
pub open spec fn entry_with_key(entries: Seq<PakEntryInventoryView>, key: Seq<char>) -> Option<
    PakEntryInventoryView,
>
    decreases entries.len(),
{
    if entries.len() == 0 {
        None
    } else if folded(entries.last().path) == key {
        Some(entries.last())
    } else {
        entry_with_key(entries.drop_last(), key)
    }
}

pub fn find_entry<'b>(entries: &'b Vec<PakEntryInventory>, key: &str) -> (result: Option<
    &'b PakEntryInventory,
>)
    ensures
        match (result, entry_with_key(views(entries@), key@)) {
            (Some(entry), Some(wanted)) => entry@ == wanted,
            (None, None) => true,
            _ => false,
        },
{
    let ghost all = views(entries@);
    let mut at: usize = entries.len();
    assert(all.take(at as int) =~= all);
    while at > 0
        invariant
            at <= entries@.len(),
            all == views(entries@),
            entry_with_key(all, key@) == entry_with_key(all.take(at as int), key@),
        decreases at,
    {
        at -= 1;
        proof {
            assert(all.take(at as int + 1).last() == entries@[at as int]@);
            assert(all.take(at as int + 1).drop_last() =~= all.take(at as int));
        }
        if same_text(sort_key(entries[at].path.as_str()).as_str(), key) {
            return Some(&entries[at]);
        }
    }
    None
}

/// The bytes over which the digest of a finished ledger is taken.
pub open spec fn sealed_ledger(audit: AuditView, entry_sha256: Seq<char>) -> Seq<u8> {
    audit.ledger + framed(encode_utf8("entry-sha256"@)) + framed(encode_utf8(entry_sha256)) + framed(
        be64(audit.verified_rows),
    ) + framed(be64(audit.verified_units)) + framed(be64(audit.preserved_nodes)) + framed(
        be64(audit.replaced_nodes),
    )
}

/// The finished record of a ledger.
pub open spec fn sealed_audit(pending: PendingAuditView, entry_sha256: Seq<char>) -> RawPreservationAssetAuditView {
    RawPreservationAssetAuditView {
        asset_path: pending.asset_path,
        pak_entry_path: pending.pak_entry_path,
        entry_sha256,
        ledger_sha256: sha256_text(sealed_ledger(pending.audit, entry_sha256)),
        verified_row_count: pending.audit.verified_rows,
        verified_atomic_unit_count: pending.audit.verified_units,
        preserved_node_count: pending.audit.preserved_nodes,
        replaced_node_count: pending.audit.replaced_nodes,
        passed: true,
    }
}

/// The record of one ledger, held against the finished Pak and against what its
/// writer read.
pub open spec fn checked_audit(
    pending: PendingAuditView,
    entries: Seq<PakEntryInventoryView>,
    sources: Seq<(Seq<char>, Seq<char>)>,
) -> Outcome<RawPreservationAssetAuditView> {
    match entry_with_key(entries, folded(pending.pak_entry_path)) {
        None => unverified(
            "a Pak file required by the unchanged-data check is missing: "@
                + pending.pak_entry_path,
        ),
        Some(entry) => if entry.size != pending.expected_entry_size {
            unverified(
                "unchanged-data Pak file size mismatch for "@ + pending.pak_entry_path
                    + ": staged "@ + dec(pending.expected_entry_size as nat) + (", Pak "@ + dec(
                    entry.size as nat,
                )),
            )
        } else {
            match get(sources, pending.pak_entry_path) {
                None => unverified(
                    "the Pak writer did not record the source bytes for "@
                        + pending.pak_entry_path,
                ),
                Some(source) => if source != entry.sha256 {
                    unverified(
                        "unchanged-data source hash mismatch for "@ + pending.pak_entry_path
                            + ": writer "@ + source + (", Pak "@ + entry.sha256),
                    )
                } else {
                    Ok(sealed_audit(pending, entry.sha256))
                },
            }
        },
    }
}

/// The records of all ledgers.
pub open spec fn checked_audits(
    done: Seq<RawPreservationAssetAuditView>,
    assets: Seq<(Seq<char>, bool)>,
    paths: Seq<(Seq<char>, bool)>,
    pending: Seq<PendingAuditView>,
    entries: Seq<PakEntryInventoryView>,
    sources: Seq<(Seq<char>, Seq<char>)>,
) -> Outcome<Seq<RawPreservationAssetAuditView>>
    decreases pending.len(),
{
    if pending.len() == 0 {
        Ok(done)
    } else {
        let asset_key = folded(pending[0].asset_path);
        let entry_key = folded(pending[0].pak_entry_path);
        if get(assets, asset_key) is Some {
            unverified(
                "duplicate unchanged-data check for file group: "@ + pending[0].asset_path,
            )
        } else if get(paths, entry_key) is Some {
            unverified(
                "duplicate unchanged-data check for Pak file: "@ + pending[0].pak_entry_path,
            )
        } else {
            match checked_audit(pending[0], entries, sources) {
                Err(error) => Err(error),
                Ok(audit) => checked_audits(
                    done.push(audit),
                    put(assets, asset_key, true),
                    put(paths, entry_key, true),
                    pending.skip(1),
                    entries,
                    sources,
                ),
            }
        }
    }
}

fn seal_audit(pending: &PendingRawPreservationAudit, entry_sha256: &str) -> (result:
    RawPreservationAssetAudit)
    ensures
        result@ == sealed_audit(pending@, entry_sha256@),
        is_digest(result.ledger_sha256@),
{
    let audit = &pending.audit;
    let mut ledger: Vec<u8> = Vec::new();
    append_bytes(&mut ledger, audit.ledger.as_slice());
    assert(ledger@ =~= audit.ledger@);
    update_framed_text(&mut ledger, "entry-sha256");
    update_framed_text(&mut ledger, entry_sha256);
    update_framed_number(&mut ledger, audit.verified_rows);
    update_framed_number(&mut ledger, audit.verified_units);
    update_framed_number(&mut ledger, audit.preserved_nodes);
    update_framed_number(&mut ledger, audit.replaced_nodes);
    RawPreservationAssetAudit {
        asset_path: pending.asset_path.clone(),
        pak_entry_path: pending.pak_entry_path.clone(),
        entry_sha256: entry_sha256.to_owned(),
        ledger_sha256: sha256_hex(ledger.as_slice()),
        verified_row_count: audit.verified_rows,
        verified_atomic_unit_count: audit.verified_units,
        preserved_node_count: audit.preserved_nodes,
        replaced_node_count: audit.replaced_nodes,
        passed: true,
    }
}

fn update_framed_number(bytes: &mut Vec<u8>, value: u64)
    ensures
        final(bytes)@ == old(bytes)@ + framed(be64(value)),
{
    let mut part: Vec<u8> = Vec::new();
    push_be64(&mut part, value);
    assert(part@ =~= be64(value));
    update_framed(bytes, part.as_slice());
}

fn check_audit(
    pending: &PendingRawPreservationAudit,
    entries: &Vec<PakEntryInventory>,
    sources: &OrderedMap<String>,
) -> (result: Result<RawPreservationAssetAudit>)
    requires
        sources.well_formed(),
    ensures
        seen(result) == checked_audit(pending@, views(entries@), sources@),
        result matches Ok(audit) ==> is_digest(audit.ledger_sha256@),
{
    let path = pending.pak_entry_path.as_str();
    let entry = match find_entry(entries, sort_key(path).as_str()) {
        Some(entry) => entry,
        None => {
            return Err(
                MergeError::Verification(
                    cat2("a Pak file required by the unchanged-data check is missing: ", path),
                ),
            );
        },
    };
    if entry.size != pending.expected_entry_size {
        return Err(
            MergeError::Verification(
                cat5(
                    "unchanged-data Pak file size mismatch for ",
                    path,
                    ": staged ",
                    decimal(pending.expected_entry_size).as_str(),
                    cat2(", Pak ", decimal(entry.size).as_str()).as_str(),
                ),
            ),
        );
    }
    match sources.find(path) {
        None => Err(
            MergeError::Verification(
                cat2("the Pak writer did not record the source bytes for ", path),
            ),
        ),
        Some(at) => {
            let source = sources.items[at].1.as_str();
            if !same_text(source, entry.sha256.as_str()) {
                return Err(
                    MergeError::Verification(
                        cat5(
                            "unchanged-data source hash mismatch for ",
                            path,
                            ": writer ",
                            source,
                            cat2(", Pak ", entry.sha256.as_str()).as_str(),
                        ),
                    ),
                );
            }
            Ok(seal_audit(pending, entry.sha256.as_str()))
        },
    }
}

/// The outcome of a step that yields finished records.
pub open spec fn same_audits(
    result: Result<Vec<RawPreservationAssetAudit>>,
    wanted: Outcome<Seq<RawPreservationAssetAuditView>>,
) -> bool {
    match (result, wanted) {
        (Ok(list), Ok(expected)) => views(list@) == expected,
        (Err(error), Err(expected)) => error@ == expected,
        _ => false,
    }
}

/// The digests of the ledgers are digests.
pub open spec fn ledgers_have_digests(audits: Seq<RawPreservationAssetAudit>) -> bool {
    forall|i: int| 0 <= i < audits.len() ==> is_digest((#[trigger] audits[i]).ledger_sha256@)
}

/// Holds the ledgers of a merge against the finished Pak. `sources` gives for each
/// file the digest of what the writer read.
#[verifier::loop_isolation(false)]
pub fn finalize_raw_preservation_audits(
    pending: &Vec<PendingRawPreservationAudit>,
    inventory: &PakInventory,
    sources: &OrderedMap<String>,
) -> (result: Result<Vec<RawPreservationAssetAudit>>)
    requires
        sources.well_formed(),
    ensures
        same_audits(
            result,
            checked_audits(
                Seq::empty(),
                Seq::empty(),
                Seq::empty(),
                views(pending@),
                inventory@.entries,
                sources@,
            ),
        ),
        result matches Ok(audits) ==> ledgers_have_digests(audits@),
{
    let ghost all = views(pending@);
    let ghost entries = inventory@.entries;
    let mut finalized: Vec<RawPreservationAssetAudit> = Vec::new();
    let mut assets: OrderedMap<bool> = OrderedMap::new();
    let mut paths: OrderedMap<bool> = OrderedMap::new();
    let mut at: usize = 0;
    proof {
        assert(all.skip(0) =~= all);
        assert(views(finalized@) =~= Seq::<RawPreservationAssetAuditView>::empty());
    }
    while at < pending.len()
        invariant
            at <= pending@.len(),
            ledgers_have_digests(finalized@),
            assets.well_formed(),
            paths.well_formed(),
            checked_audits(
                Seq::empty(),
                Seq::empty(),
                Seq::empty(),
                all,
                entries,
                sources@,
            ) == checked_audits(
                views(finalized@),
                assets@,
                paths@,
                all.skip(at as int),
                entries,
                sources@,
            ),
        decreases pending.len() - at,
    {
        let one = &pending[at];
        proof {
            assert(all.skip(at as int)[0] == one@);
            assert(all.skip(at as int).skip(1) =~= all.skip(at as int + 1));
        }
        let asset_key = sort_key(one.asset_path.as_str());
        let entry_key = sort_key(one.pak_entry_path.as_str());
        if assets.find(asset_key.as_str()).is_some() {
            return Err(
                MergeError::Verification(
                    cat2(
                        "duplicate unchanged-data check for file group: ",
                        one.asset_path.as_str(),
                    ),
                ),
            );
        }
        if paths.find(entry_key.as_str()).is_some() {
            return Err(
                MergeError::Verification(
                    cat2(
                        "duplicate unchanged-data check for Pak file: ",
                        one.pak_entry_path.as_str(),
                    ),
                ),
            );
        }
        let audit = match check_audit(one, &inventory.entries, sources) {
            Ok(audit) => audit,
            Err(error) => {
                return Err(error);
            },
        };
        assets.insert(asset_key, true);
        paths.insert(entry_key, true);
        proof {
            views_push(finalized@, audit);
        }
        finalized.push(audit);
        at += 1;
    }
    Ok(finalized)
}

proof fn units_add_no_row(
    audit: AuditView,
    context: RowContextView,
    carrier: int,
    row: DatabaseRow,
    read: ReadRow,
    units: Seq<AtomicGroupView>,
)
    ensures
        with_units(audit, context, carrier, row, read, units) matches Ok(after)
            ==> after.verified_rows == audit.verified_rows,
    decreases units.len(),
{
    if units.len() > 0 {
        match with_unit(audit, context, carrier, row, read, units[0]) {
            Err(_) => {},
            Ok(next) => {
                units_add_no_row(next, context, carrier, row, read, units.skip(1));
            },
        }
    }
}

/// A row that is recorded counts once.
pub proof fn recorded_rows_count_once(
    audit: AuditView,
    context: RowContextView,
    carrier: int,
    row_id: i64,
    row: Option<DatabaseRow>,
    bytes: Seq<u8>,
    read: std::result::Result<ReadRow, String>,
)
    ensures
        recorded(audit, context, carrier, row_id, row, bytes, read) matches Ok(after)
            ==> after.verified_rows == capped_sum(audit.verified_rows, 1),
{
    match (read, row) {
        (Ok(found), Some(row)) => {
            match row.units {
                Ok(units) => {
                    units_add_no_row(
                        entered_row(audit, row_id, bytes),
                        context,
                        carrier,
                        row,
                        found,
                        groups_of(units@),
                    );
                },
                Err(_) => {},
            }
        },
        _ => {},
    }
}

} // verus!
