//! What a merged database holds: for each row of the base Pak the row or the values
//! that were chosen, or the row as it is where there was nothing to choose, and behind
//! them the rows that only other Paks have.
use vstd::prelude::*;
use vstd::utf8::encode_utf8;

use super::assembly::{
    added_row_donor, added_rows_from, all_rows, appended_ids, build_context, carrier_rows_from,
    holder_from, ids_without, merged_database, merged_databases_keep_their_shell, merged_row,
    output_at, with_added_row, with_carrier_row, BuildView, OutputRow,
};
use super::audit::{
    carrier_id, empty_audit, entered_row, read_digest, recorded, row_digest, with_unit, with_units,
    AuditView, ReadRow,
};
use super::choices::{
    conflict_in, donor_at, row_plan, untouched, with_choice, with_choices, RowChoiceView,
    RowContextView, TouchedView,
};
use super::database::{row_from, AtomicGroupView, DatabaseRow, ParsedDbProviderView};
use super::group::carrier_from;
use super::ids::{framed, sha256_text};
use super::opened::OpenedPakView;
use super::resolve::{concerns, row_conflict, selected_input, variant_with};
use super::row_ids::{all_ids_from, collected_ids_are_those_of_the_rows, ids_ascend};
use super::rows::groups_of;
use super::types::{ConflictKind, ConflictView, MergePlanView, ResolutionSetView, VariantView};
use crate::ordered::slot_parts;
use crate::text::signed_dec;

verus! {

/// The choices give for a conflict one of its variants, and that variant is of the
/// input with this id.
pub open spec fn chose(
    choices: Seq<(Seq<char>, Seq<char>)>,
    conflict: ConflictView,
    input_id: Seq<char>,
) -> bool {
    exists|v: int|
        0 <= v < conflict.variants.len() && choices.contains(
            (conflict.id, (#[trigger] conflict.variants[v]).id),
        ) && conflict.variants[v].input_id == input_id
}

proof fn found_variants_are_there(variants: Seq<VariantView>, id: Seq<char>)
    ensures
        variant_with(variants, id) matches Some(found) ==> exists|v: int|
            0 <= v < variants.len() && #[trigger] variants[v] == found && found.id == id,
    decreases variants.len(),
{
    if variants.len() > 0 && variants[0].id != id {
        let rest = variants.skip(1);
        found_variants_are_there(rest, id);
        if let Some(found) = variant_with(rest, id) {
            let v = choose|v: int| 0 <= v < rest.len() && #[trigger] rest[v] == found && found.id == id;
            assert(variants[v + 1] == found);
        }
    }
}

/// The input that is taken for a conflict is the one that was chosen for it.
pub proof fn selected_inputs_were_chosen(
    conflict: ConflictView,
    choices: Seq<(Seq<char>, Seq<char>)>,
)
    ensures
        selected_input(conflict, choices) matches Ok(input_id) ==> chose(
            choices,
            conflict,
            input_id,
        ),
{
    slot_parts(choices, conflict.id);
    if selected_input(conflict, choices) is Ok {
        let at = crate::ordered::slot(choices, conflict.id);
        let id = choices[at].1;
        assert(choices[at] == (conflict.id, id));
        found_variants_are_there(conflict.variants, id);
        let v = choose|v: int|
            0 <= v < conflict.variants.len() && #[trigger] conflict.variants[v] == variant_with(
                conflict.variants,
                id,
            )->0 && conflict.variants[v].id == id;
        assert(choices.contains((conflict.id, conflict.variants[v].id)));
    }
}

/// The conflict about a group of a row is one of the plan, and is found wherever the
/// plan has one.
pub proof fn row_conflicts_are_found(
    conflicts: Seq<ConflictView>,
    asset_path: Seq<char>,
    row_id: i64,
    group_id: Seq<char>,
)
    ensures
        row_conflict(conflicts, asset_path, row_id, group_id) matches Some(found)
            ==> conflicts.contains(found) && concerns(found, asset_path, row_id, group_id),
        row_conflict(conflicts, asset_path, row_id, group_id) is None ==> forall|i: int|
            0 <= i < conflicts.len() ==> !concerns(
                #[trigger] conflicts[i],
                asset_path,
                row_id,
                group_id,
            ),
    decreases conflicts.len(),
{
    if conflicts.len() > 0 {
        let rest = conflicts.drop_last();
        row_conflicts_are_found(rest, asset_path, row_id, group_id);
        assert(conflicts[conflicts.len() - 1] == conflicts.last());
        if !concerns(conflicts.last(), asset_path, row_id, group_id) {
            match row_conflict(rest, asset_path, row_id, group_id) {
                Some(found) => {
                    let i = choose|i: int| 0 <= i < rest.len() && rest[i] == found;
                    assert(conflicts[i] == found);
                },
                None => {
                    assert forall|i: int| 0 <= i < conflicts.len() implies !concerns(
                        #[trigger] conflicts[i],
                        asset_path,
                        row_id,
                        group_id,
                    ) by {
                        if i < rest.len() {
                            assert(rest[i] == conflicts[i]);
                        }
                    }
                },
            }
        }
    }
}

/// A list of rows has one with this id and these bytes, and none with the id before
/// it.
pub open spec fn has_row(rows: Seq<DatabaseRow>, row_id: i64, bytes: Seq<u8>) -> bool {
    exists|r: int|
        0 <= r < rows.len() && (#[trigger] rows[r]).id == row_id && rows[r].raw@ == bytes && forall|
            s: int,
        | 0 <= s < r ==> (#[trigger] rows[s]).id != row_id
}

proof fn found_rows_are_there(rows: Seq<DatabaseRow>, row_id: i64)
    ensures
        row_from(rows, row_id) matches Some(row) ==> row.id == row_id && has_row(
            rows,
            row_id,
            row.raw@,
        ),
        row_from(rows, row_id) is None ==> forall|r: int|
            0 <= r < rows.len() ==> (#[trigger] rows[r]).id != row_id,
    decreases rows.len(),
{
    if rows.len() > 0 {
        if rows[0].id != row_id {
            let rest = rows.skip(1);
            found_rows_are_there(rest, row_id);
            match row_from(rest, row_id) {
                Some(row) => {
                    let r = choose|r: int|
                        0 <= r < rest.len() && (#[trigger] rest[r]).id == row_id && rest[r].raw@
                            == row.raw@ && forall|s: int|
                            0 <= s < r ==> (#[trigger] rest[s]).id != row_id;
                    assert(rows[r + 1] == rest[r]);
                    assert forall|s: int| 0 <= s < r + 1 implies (#[trigger] rows[s]).id != row_id by {
                        if s > 0 {
                            assert(rest[s - 1] == rows[s]);
                        }
                    }
                },
                None => {
                    assert forall|r: int| 0 <= r < rows.len() implies (#[trigger] rows[r]).id
                        != row_id by {
                        if r > 0 {
                            assert(rest[r - 1] == rows[r]);
                        }
                    }
                },
            }
        } else {
            assert(rows[0].raw@ == rows[0].raw@);
        }
    }
}

/// The row that counts for a place of a list: the one there, unless a row before it
/// has the same id.
pub open spec fn row_at(rows: Seq<DatabaseRow>, at: int) -> DatabaseRow {
    row_from(rows, rows[at].id)->0
}

/// No two rows of a list have the same id.
pub open spec fn rows_differ(rows: Seq<DatabaseRow>) -> bool {
    forall|r: int, s: int|
        0 <= r < s < rows.len() ==> (#[trigger] rows[r]).id != (#[trigger] rows[s]).id
}

/// In a list of rows with ids of their own, the row there counts for every place.
pub proof fn own_rows_are_found(rows: Seq<DatabaseRow>, at: int)
    requires
        rows_differ(rows),
        0 <= at < rows.len(),
    ensures
        row_at(rows, at) == rows[at],
    decreases rows.len(),
{
    if at > 0 {
        let rest = rows.skip(1);
        assert(rows[0].id != rows[at].id);
        assert forall|r: int, s: int| 0 <= r < s < rest.len() implies (#[trigger] rest[r]).id != (
        #[trigger] rest[s]).id by {
            assert(rest[r] == rows[r + 1] && rest[s] == rows[s + 1]);
        }
        assert(rest[at - 1] == rows[at]);
        own_rows_are_found(rest, at - 1);
    }
}

/// A provider is the input that was chosen for a conflict, and has the row with these
/// bytes.
pub open spec fn gives_row(
    context: RowContextView,
    provider: int,
    conflict: ConflictView,
    row_id: i64,
    bytes: Seq<u8>,
) -> bool {
    &&& 0 <= provider < context.parsed.len()
    &&& chose(
        context.choices,
        conflict,
        context.opened[context.parsed[provider].input_index as int].descriptor.id,
    )
    &&& has_row(context.parsed[provider].asset.rows@, row_id, bytes)
}

proof fn donors_are_there(
    parsed: Seq<ParsedDbProviderView>,
    opened: Seq<OpenedPakView>,
    input_id: Seq<char>,
    at: int,
)
    requires
        0 <= at,
    ensures
        donor_at(parsed, opened, input_id, at) matches Some(donor) ==> at <= donor < parsed.len()
            && opened[parsed[donor].input_index as int].descriptor.id == input_id,
    decreases parsed.len() - at,
{
    if at < parsed.len() {
        donors_are_there(parsed, opened, input_id, at + 1);
    }
}

/// Something has to be chosen for a unit of a row: there is a conflict over it that
/// does not merely tell of another way of storing the same value.
pub open spec fn needs_choice(context: RowContextView, row_id: i64, unit: AtomicGroupView) -> bool {
    conflict_in(context, row_id, unit.id) matches Some(conflict) && (conflict.blocking
        || conflict.kind != ConflictKind::EncodingDrift)
}

/// The bytes of a row of the base Pak in the merged database are those of the chosen
/// row; or the row as it is, where nothing of it was to be chosen; or else what the
/// merger made of the chosen values.
pub open spec fn is_merged(
    context: RowContextView,
    row: DatabaseRow,
    output: OutputRow,
    bytes: Seq<u8>,
) -> bool {
    match conflict_in(context, row.id, "__whole_row__"@) {
        Some(conflict) => exists|provider: int| #[trigger]
            gives_row(context, provider, conflict, row.id, bytes),
        None => row.units matches Ok(units) && if exists|u: int|
            0 <= u < units@.len() && needs_choice(context, row.id, (#[trigger] units@[u]).group@) {
            output.merged matches Ok(merged) && merged@ == bytes
        } else {
            row.raw@ == bytes
        },
    }
}

proof fn selections_only_grow(
    touched: TouchedView,
    context: RowContextView,
    row_id: i64,
    units: Seq<AtomicGroupView>,
)
    ensures
        with_choices(touched, context, row_id, units) matches Ok(after) ==> {
            &&& after.selections.len() >= touched.selections.len()
            &&& after.selections.len() > touched.selections.len() <==> exists|u: int|
                0 <= u < units.len() && needs_choice(context, row_id, #[trigger] units[u])
        },
    decreases units.len(),
{
    if units.len() > 0 {
        match with_choice(touched, context, row_id, units[0]) {
            Err(_) => {},
            Ok(next) => {
                let rest = units.skip(1);
                selections_only_grow(next, context, row_id, rest);
                if needs_choice(context, row_id, units[0]) {
                    assert(next.selections.len() == touched.selections.len() + 1);
                } else {
                    assert(next.selections.len() == touched.selections.len());
                    if exists|u: int|
                        0 <= u < rest.len() && needs_choice(context, row_id, #[trigger] rest[u]) {
                        let u = choose|u: int|
                            0 <= u < rest.len() && needs_choice(
                                context,
                                row_id,
                                #[trigger] rest[u],
                            );
                        assert(units[u + 1] == rest[u]);
                    }
                    if exists|u: int|
                        0 <= u < units.len() && needs_choice(context, row_id, #[trigger] units[u]) {
                        let u = choose|u: int|
                            0 <= u < units.len() && needs_choice(
                                context,
                                row_id,
                                #[trigger] units[u],
                            );
                        assert(rest[u - 1] == units[u]);
                    }
                }
            },
        }
    }
}

/// The bytes that are taken for a row of the base Pak are the merged ones.
pub proof fn taken_rows_are_merged(
    context: RowContextView,
    row: DatabaseRow,
    output: OutputRow,
)
    requires
        context.parsed.len() <= usize::MAX,
    ensures
        row_plan(context, row) matches Ok(plan) ==> (merged_row(
            context,
            row,
            plan.choice,
            output,
        ) matches Ok(bytes) ==> is_merged(context, row, output, bytes)),
{
    if let Ok(plan) = row_plan(context, row) {
        if let Ok(bytes) = merged_row(context, row, plan.choice, output) {
            match conflict_in(context, row.id, "__whole_row__"@) {
                Some(conflict) => {
                    let input_id = selected_input(conflict, context.choices)->Ok_0;
                    selected_inputs_were_chosen(conflict, context.choices);
                    donors_are_there(context.parsed, context.opened, input_id, 0);
                    let donor = donor_at(context.parsed, context.opened, input_id, 0)->0;
                    found_rows_are_there(context.parsed[donor].asset.rows@, row.id);
                    assert(plan.choice == RowChoiceView::Whole(donor as usize));
                    assert(gives_row(context, donor, conflict, row.id, bytes));
                },
                None => {
                    let units = row.units->Ok_0;
                    let groups = groups_of(units@);
                    selections_only_grow(untouched(), context, row.id, groups);
                    if exists|u: int|
                        0 <= u < units@.len() && needs_choice(
                            context,
                            row.id,
                            (#[trigger] units@[u]).group@,
                        ) {
                        let u = choose|u: int|
                            0 <= u < units@.len() && needs_choice(
                                context,
                                row.id,
                                (#[trigger] units@[u]).group@,
                            );
                        assert(needs_choice(context, row.id, groups[u]));
                    } else {
                        assert forall|u: int| 0 <= u < groups.len() implies !needs_choice(
                            context,
                            row.id,
                            #[trigger] groups[u],
                        ) by {
                            assert(groups[u] == units@[u].group@);
                        }
                    }
                },
            }
        }
    }
}

/// A provider's row has the values of a unit that a read row has, by their digest; the
/// provider is the input that was chosen for the unit, or the base Pak where nothing
/// was to be chosen.
pub open spec fn unit_from_provider(
    context: RowContextView,
    carrier: int,
    row: DatabaseRow,
    read: ReadRow,
    unit: AtomicGroupView,
    provider: int,
) -> bool {
    &&& match conflict_in(context, row.id, unit.id) {
        Some(conflict) if conflict.kind != ConflictKind::EncodingDrift => 0 <= provider
            < context.parsed.len() && chose(
            context.choices,
            conflict,
            context.opened[context.parsed[provider].input_index as int].descriptor.id,
        ),
        _ => provider == carrier,
    }
    &&& if provider == carrier {
        row_digest(row, unit) is Ok && read_digest(read, unit) == row_digest(row, unit)
    } else {
        row_from(context.parsed[provider].asset.rows@, row.id) matches Some(other) && row_digest(
            other,
            unit,
        ) is Ok && read_digest(read, unit) == row_digest(other, unit)
    }
}

/// A merged row is read back as the row that was meant: it has the id, and where it was
/// not taken as a whole, every unit of it has the values of the chosen input, or of the
/// base Pak.
pub open spec fn reads_back(
    context: RowContextView,
    carrier: int,
    row: DatabaseRow,
    read: std::result::Result<ReadRow, String>,
) -> bool {
    &&& read matches Ok(found) && found.id == Ok::<i64, String>(row.id)
    &&& conflict_in(context, row.id, "__whole_row__"@) is None ==> (row.units matches Ok(units)
        && forall|u: int|
        0 <= u < units@.len() ==> exists|provider: int| #[trigger]
            unit_from_provider(
                context,
                carrier,
                row,
                read->Ok_0,
                (#[trigger] units@[u]).group@,
                provider,
            ))
}

proof fn entered_units_were_compared(
    audit: AuditView,
    context: RowContextView,
    carrier: int,
    row: DatabaseRow,
    read: ReadRow,
    units: Seq<AtomicGroupView>,
    at: int,
)
    requires
        0 <= carrier < context.parsed.len(),
        0 <= at < units.len(),
    ensures
        with_units(audit, context, carrier, row, read, units) is Ok ==> exists|provider: int|
            #[trigger] unit_from_provider(context, carrier, row, read, units[at], provider),
    decreases units.len(),
{
    match with_unit(audit, context, carrier, row, read, units[0]) {
        Err(_) => {},
        Ok(next) => {
            let rest = units.skip(1);
            if at > 0 {
                assert(rest[at - 1] == units[at]);
                entered_units_were_compared(next, context, carrier, row, read, rest, at - 1);
            } else {
                let unit = units[0];
                match conflict_in(context, row.id, unit.id) {
                    Some(conflict) if conflict.kind != ConflictKind::EncodingDrift => {
                        let input_id = selected_input(conflict, context.choices)->Ok_0;
                        selected_inputs_were_chosen(conflict, context.choices);
                        donors_are_there(context.parsed, context.opened, input_id, 0);
                        if input_id == carrier_id(context, carrier) {
                            assert(unit_from_provider(context, carrier, row, read, unit, carrier));
                        } else {
                            let donor = donor_at(context.parsed, context.opened, input_id, 0)->0;
                            assert(unit_from_provider(context, carrier, row, read, unit, donor));
                        }
                    },
                    _ => {
                        assert(unit_from_provider(context, carrier, row, read, unit, carrier));
                    },
                }
            }
        },
    }
}

/// What is entered into a ledger for a row with these bytes.
pub open spec fn row_mark(row_id: i64, bytes: Seq<u8>) -> Seq<u8> {
    framed(encode_utf8("row"@)) + framed(encode_utf8(signed_dec(row_id as int))) + framed(
        encode_utf8(sha256_text(bytes)),
    )
}

proof fn prefixes_chain(a: Seq<u8>, b: Seq<u8>, c: Seq<u8>)
    requires
        a.is_prefix_of(b),
        b.is_prefix_of(c),
    ensures
        a.is_prefix_of(c),
{
    assert(c.subrange(0, a.len() as int) =~= b.subrange(0, a.len() as int));
}

proof fn longer_has_prefix(a: Seq<u8>, b: Seq<u8>)
    ensures
        a.is_prefix_of(a + b),
{
    assert((a + b).subrange(0, a.len() as int) =~= a);
}

proof fn ledgers_only_grow(
    audit: AuditView,
    context: RowContextView,
    carrier: int,
    row: DatabaseRow,
    read: ReadRow,
    units: Seq<AtomicGroupView>,
)
    ensures
        with_units(audit, context, carrier, row, read, units) matches Ok(after)
            ==> audit.ledger.is_prefix_of(after.ledger),
    decreases units.len(),
{
    if units.len() == 0 {
        assert(audit.ledger.subrange(0, audit.ledger.len() as int) =~= audit.ledger);
    } else {
        match with_unit(audit, context, carrier, row, read, units[0]) {
            Err(_) => {},
            Ok(next) => {
                assert(audit.ledger.is_prefix_of(next.ledger)) by {
                    assert(next.ledger.subrange(0, audit.ledger.len() as int) =~= audit.ledger);
                }
                ledgers_only_grow(next, context, carrier, row, read, units.skip(1));
                if let Ok(after) = with_units(next, context, carrier, row, read, units.skip(1)) {
                    prefixes_chain(audit.ledger, next.ledger, after.ledger);
                }
            },
        }
    }
}

/// What is entered for a row begins with the digest of the bytes that are written for
/// it.
proof fn recorded_rows_are_entered(
    audit: AuditView,
    context: RowContextView,
    carrier: int,
    row_id: i64,
    row: Option<DatabaseRow>,
    bytes: Seq<u8>,
    read: std::result::Result<ReadRow, String>,
) -> (mark: Seq<u8>)
    requires
        0 <= carrier < context.parsed.len(),
        recorded(audit, context, carrier, row_id, row, bytes, read) is Ok,
        row matches Some(own) ==> own.id == row_id,
    ensures
        recorded(audit, context, carrier, row_id, row, bytes, read)->Ok_0.ledger == audit.ledger
            + mark,
        row_mark(row_id, bytes).is_prefix_of(mark),
        read matches Ok(found) && found.id == Ok::<i64, String>(row_id),
        row matches Some(own) ==> reads_back(context, carrier, own, read),
{
    let after = recorded(audit, context, carrier, row_id, row, bytes, read)->Ok_0;
    let start = entered_row(audit, row_id, bytes);
    let mark = after.ledger.skip(audit.ledger.len() as int);
    let head = row_mark(row_id, bytes);
    assert(start.ledger =~= audit.ledger + head);
    assert(start.ledger.is_prefix_of(after.ledger)) by {
        match row {
            None => {
                assert(after.ledger.subrange(0, start.ledger.len() as int) =~= start.ledger);
            },
            Some(own) => match conflict_in(context, row_id, "__whole_row__"@) {
                Some(_) => {
                    assert(after.ledger.subrange(0, start.ledger.len() as int) =~= start.ledger);
                },
                None => {
                    let units = own.units->Ok_0;
                    if units@.len() == 0 {
                        assert(after.ledger.subrange(0, start.ledger.len() as int)
                            =~= start.ledger);
                    } else {
                        ledgers_only_grow(
                            start,
                            context,
                            carrier,
                            own,
                            read->Ok_0,
                            groups_of(units@),
                        );
                    }
                },
            },
        }
    }
    assert(after.ledger =~= audit.ledger + mark) by {
        assert(after.ledger.subrange(0, start.ledger.len() as int) == start.ledger);
        assert forall|i: int| 0 <= i < audit.ledger.len() implies after.ledger[i]
            == audit.ledger[i] by {
            assert(after.ledger.subrange(0, start.ledger.len() as int)[i] == start.ledger[i]);
        }
    }
    assert(mark.subrange(0, head.len() as int) =~= head) by {
        assert forall|i: int| 0 <= i < head.len() implies mark[i] == head[i] by {
            assert(after.ledger.subrange(0, start.ledger.len() as int)[audit.ledger.len() + i]
                == start.ledger[audit.ledger.len() + i]);
        }
    }
    if let Some(own) = row {
        if conflict_in(context, row_id, "__whole_row__"@) is None {
            let units = own.units->Ok_0;
            assert forall|u: int| 0 <= u < units@.len() implies exists|provider: int| #[trigger]
                unit_from_provider(
                    context,
                    carrier,
                    own,
                    read->Ok_0,
                    (#[trigger] units@[u]).group@,
                    provider,
                ) by {
                entered_units_were_compared(
                    start,
                    context,
                    carrier,
                    own,
                    read->Ok_0,
                    groups_of(units@),
                    u,
                );
                assert(groups_of(units@)[u] == units@[u].group@);
            }
        }
    }
    mark
}

/// A row of a merged database: its bytes, and what was entered for it.
#[verifier::ext_equal]
pub struct WrittenRow {
    pub bytes: Seq<u8>,
    pub mark: Seq<u8>,
}

/// The bytes of rows one after the other.
pub open spec fn bytes_of_rows(rows: Seq<WrittenRow>) -> Seq<u8>
    decreases rows.len(),
{
    if rows.len() == 0 {
        Seq::empty()
    } else {
        bytes_of_rows(rows.drop_last()) + rows.last().bytes
    }
}

/// What was entered for rows one after the other.
pub open spec fn marks_of_rows(rows: Seq<WrittenRow>) -> Seq<u8>
    decreases rows.len(),
{
    if rows.len() == 0 {
        Seq::empty()
    } else {
        marks_of_rows(rows.drop_last()) + rows.last().mark
    }
}

/// A row of the base Pak stands in the merged database as it should.
pub open spec fn stands_for_row(
    context: RowContextView,
    carrier: int,
    row: DatabaseRow,
    output: OutputRow,
    written: WrittenRow,
) -> bool {
    &&& is_merged(context, row, output, written.bytes)
    &&& reads_back(context, carrier, row, output.read)
    &&& row_mark(row.id, written.bytes).is_prefix_of(written.mark)
}

/// A row that the base Pak has not stands in the merged database as it should: it is
/// the chosen one where the other Paks differ over it, and else that of the first Pak
/// that has it.
pub open spec fn stands_for_added(
    context: RowContextView,
    row_id: i64,
    output: OutputRow,
    written: WrittenRow,
) -> bool {
    &&& match conflict_in(context, row_id, "$row"@) {
        Some(conflict) => exists|provider: int| #[trigger]
            gives_row(context, provider, conflict, row_id, written.bytes),
        None => exists|provider: int| #[trigger] first_has_row(context, provider, row_id, written.bytes),
    }
    &&& output.read matches Ok(found) && found.id == Ok::<i64, String>(row_id)
    &&& row_mark(row_id, written.bytes).is_prefix_of(written.mark)
}

/// A provider has a row with these bytes, and no provider before it has the row.
pub open spec fn first_has_row(
    context: RowContextView,
    provider: int,
    row_id: i64,
    bytes: Seq<u8>,
) -> bool {
    &&& 0 <= provider < context.parsed.len()
    &&& has_row(context.parsed[provider].asset.rows@, row_id, bytes)
    &&& forall|p: int, r: int|
        0 <= p < provider && 0 <= r < context.parsed[p].asset.rows@.len()
            ==> (#[trigger] context.parsed[p].asset.rows@[r]).id != row_id
}

proof fn holders_are_first(parsed: Seq<ParsedDbProviderView>, row_id: i64, at: int)
    requires
        0 <= at,
        forall|p: int, r: int|
            0 <= p < at && p < parsed.len() && 0 <= r < parsed[p].asset.rows@.len()
                ==> (#[trigger] parsed[p].asset.rows@[r]).id != row_id,
    ensures
        holder_from(parsed, row_id, at) matches Some(holder) ==> {
            &&& at <= holder < parsed.len()
            &&& row_from(parsed[holder].asset.rows@, row_id) is Some
            &&& forall|p: int, r: int|
                0 <= p < holder && 0 <= r < parsed[p].asset.rows@.len()
                    ==> (#[trigger] parsed[p].asset.rows@[r]).id != row_id
        },
    decreases parsed.len() - at,
{
    if at < parsed.len() {
        found_rows_are_there(parsed[at].asset.rows@, row_id);
        if row_from(parsed[at].asset.rows@, row_id) is None {
            holders_are_first(parsed, row_id, at + 1);
        }
    }
}

/// What stands in a merged database: the rows of the base Pak in their order, and
/// behind them the added rows with the ids `added`.
pub open spec fn stands_for_table(
    context: RowContextView,
    carrier: int,
    added: Seq<i64>,
    outputs: Seq<OutputRow>,
    written: Seq<WrittenRow>,
) -> bool {
    let rows = context.parsed[carrier].asset.rows@;
    &&& written.len() == rows.len() + added.len()
    &&& written.len() <= outputs.len()
    &&& forall|i: int|
        0 <= i < rows.len() ==> stands_for_row(
            context,
            carrier,
            row_at(rows, i),
            outputs[i],
            #[trigger] written[i],
        )
    &&& forall|j: int|
        rows.len() <= j < written.len() ==> stands_for_added(
            context,
            added[j - rows.len()],
            outputs[j],
            #[trigger] written[j],
        )
}

proof fn base_rows_are_written(
    state: BuildView,
    context: RowContextView,
    carrier: int,
    outputs: Seq<OutputRow>,
    at: int,
    done: Seq<WrittenRow>,
    ledger: Seq<u8>,
) -> (written: Seq<WrittenRow>)
    requires
        context.parsed.len() <= usize::MAX,
        0 <= carrier < context.parsed.len(),
        0 <= at <= context.parsed[carrier].asset.rows@.len(),
        done.len() == at,
        at <= outputs.len(),
        state.rows == bytes_of_rows(done),
        state.audit.ledger == ledger + marks_of_rows(done),
        forall|i: int|
            0 <= i < at ==> stands_for_row(
                context,
                carrier,
                row_at(context.parsed[carrier].asset.rows@, i),
                outputs[i],
                #[trigger] done[i],
            ),
        carrier_rows_from(state, context, carrier, outputs, at) is Ok,
    ensures
        ({
            let after = carrier_rows_from(state, context, carrier, outputs, at)->Ok_0;
            let rows = context.parsed[carrier].asset.rows@;
            &&& written.len() == rows.len()
            &&& rows.len() <= outputs.len()
            &&& after.rows == bytes_of_rows(written)
            &&& after.audit.ledger == ledger + marks_of_rows(written)
            &&& forall|i: int|
                0 <= i < rows.len() ==> stands_for_row(
                    context,
                    carrier,
                    row_at(rows, i),
                    outputs[i],
                    #[trigger] written[i],
                )
        }),
    decreases context.parsed[carrier].asset.rows@.len() - at,
{
    let rows = context.parsed[carrier].asset.rows@;
    if at >= rows.len() {
        done
    } else {
        found_rows_are_there(rows, rows[at].id);
        let row = row_at(rows, at);
        let output = output_at(outputs, at)->0;
        let next = with_carrier_row(state, context, carrier, row, output_at(outputs, at))->Ok_0;
        let plan = row_plan(context, row)->Ok_0;
        let bytes = merged_row(context, row, plan.choice, output)->Ok_0;
        taken_rows_are_merged(context, row, output);
        let mark = recorded_rows_are_entered(
            state.audit,
            context,
            carrier,
            row.id,
            Some(row),
            bytes,
            output.read,
        );
        let more = done.push(WrittenRow { bytes, mark });
        assert(more.drop_last() =~= done);
        assert(next.rows == bytes_of_rows(more));
        assert(next.audit.ledger =~= ledger + marks_of_rows(more));
        base_rows_are_written(next, context, carrier, outputs, at + 1, more, ledger)
    }
}

proof fn added_rows_are_written(
    state: BuildView,
    context: RowContextView,
    carrier: int,
    added: Seq<i64>,
    outputs: Seq<OutputRow>,
    at: int,
    done: Seq<WrittenRow>,
    ledger: Seq<u8>,
) -> (written: Seq<WrittenRow>)
    requires
        0 <= carrier < context.parsed.len(),
        0 <= at <= added.len(),
        done.len() == context.parsed[carrier].asset.rows@.len() + at,
        done.len() <= outputs.len(),
        state.rows == bytes_of_rows(done),
        state.audit.ledger == ledger + marks_of_rows(done),
        stands_for_table(context, carrier, added.take(at), outputs, done),
        added_rows_from(
            state,
            context,
            carrier,
            added.skip(at),
            outputs,
            done.len() as int,
        ) is Ok,
    ensures
        ({
            let after = added_rows_from(
                state,
                context,
                carrier,
                added.skip(at),
                outputs,
                done.len() as int,
            )->Ok_0;
            &&& after.rows == bytes_of_rows(written)
            &&& after.audit.ledger == ledger + marks_of_rows(written)
            &&& stands_for_table(context, carrier, added, outputs, written)
        }),
    decreases added.len() - at,
{
    let rest = added.skip(at);
    let count = context.parsed[carrier].asset.rows@.len();
    if at >= added.len() {
        assert(added.take(at) =~= added);
        done
    } else {
        let id = added[at];
        let place = done.len() as int;
        assert(rest[0] == id);
        assert(rest.skip(1) =~= added.skip(at + 1));
        let output = output_at(outputs, place)->0;
        let next = with_added_row(state, context, carrier, id, output_at(outputs, place))->Ok_0;
        let donor = added_row_donor(context, id)->Ok_0;
        let row = row_from(context.parsed[donor].asset.rows@, id)->0;
        match conflict_in(context, id, "$row"@) {
            Some(conflict) => {
                let input_id = selected_input(conflict, context.choices)->Ok_0;
                selected_inputs_were_chosen(conflict, context.choices);
                donors_are_there(context.parsed, context.opened, input_id, 0);
                found_rows_are_there(context.parsed[donor].asset.rows@, id);
                assert(gives_row(context, donor, conflict, id, row.raw@));
            },
            None => {
                holders_are_first(context.parsed, id, 0);
                found_rows_are_there(context.parsed[donor].asset.rows@, id);
                assert(first_has_row(context, donor, id, row.raw@));
            },
        }
        let mark = recorded_rows_are_entered(
            state.audit,
            context,
            carrier,
            id,
            None,
            row.raw@,
            output.read,
        );
        let item = WrittenRow { bytes: row.raw@, mark };
        let more = done.push(item);
        assert(more.drop_last() =~= done);
        assert(next.rows == bytes_of_rows(more));
        assert(next.audit.ledger =~= ledger + marks_of_rows(more));
        assert(stands_for_added(context, id, output, item));
        assert(stands_for_table(context, carrier, added.take(at + 1), outputs, more)) by {
            assert forall|i: int| 0 <= i < count implies stands_for_row(
                context,
                carrier,
                row_at(context.parsed[carrier].asset.rows@, i),
                outputs[i],
                #[trigger] more[i],
            ) by {
                assert(more[i] == done[i]);
            }
            assert forall|j: int| count <= j < more.len() implies stands_for_added(
                context,
                added.take(at + 1)[j - count],
                outputs[j],
                #[trigger] more[j],
            ) by {
                if j < place {
                    assert(more[j] == done[j]);
                    assert(added.take(at + 1)[j - count] == added.take(at)[j - count]);
                }
            }
        }
        added_rows_are_written(next, context, carrier, added, outputs, at + 1, more, ledger)
    }
}

proof fn ids_without_ascend(ids: Seq<i64>, rows: Seq<DatabaseRow>)
    requires
        ids_ascend(ids),
    ensures
        ids_ascend(ids_without(ids, rows)),
        forall|i: int|
            0 <= i < ids_without(ids, rows).len() ==> ids.contains(
                #[trigger] ids_without(ids, rows)[i],
            ),
    decreases ids.len(),
{
    if ids.len() > 0 {
        let rest = ids.drop_last();
        let less = ids_without(rest, rows);
        ids_without_ascend(rest, rows);
        let after = ids_without(ids, rows);
        assert(ids[ids.len() - 1] == ids.last());
        assert forall|i: int| 0 <= i < less.len() implies ids.contains(#[trigger] less[i])
            && less[i] < ids.last() by {
            assert(rest.contains(less[i]));
            let k = choose|k: int| 0 <= k < rest.len() && rest[k] == less[i];
            assert(ids[k] == less[i]);
        }
    }
}

/// The list of rows of a merged database is the reader's header with, behind it, every
/// row of the base Pak in its order, with the bytes that were chosen for it, and every
/// row that only other Paks have, in the order of their ids; and the ledger enters
/// exactly these bytes, row by row.
pub proof fn merged_databases_hold_the_chosen_rows(
    plan: MergePlanView,
    resolutions: ResolutionSetView,
    opened: Seq<OpenedPakView>,
    parsed: Seq<ParsedDbProviderView>,
    carrier_index: usize,
    header: Vec<u8>,
    outputs: Seq<OutputRow>,
)
    requires
        0 < parsed.len() <= usize::MAX,
        parsed[carrier_from(parsed, carrier_index, 0)].asset.well_formed(),
    ensures
        merged_database(
            plan,
            resolutions,
            opened,
            parsed,
            carrier_index,
            Ok(header),
            outputs,
        ) matches Ok(built) ==> {
            let carrier = carrier_from(parsed, carrier_index, 0);
            let provider = parsed[carrier];
            let added = appended_ids(parsed, carrier);
            let context = build_context(plan, resolutions, opened, parsed, carrier);
            let start = empty_audit(provider.group.base_path, provider.group.components.uexp->0);
            &&& ids_ascend(added)
            &&& exists|written: Seq<WrittenRow>|
                {
                    let list = header@ + bytes_of_rows(written);
                    let at = provider.asset.prefix@.len() + provider.asset.list_start;
                    &&& #[trigger] stands_for_table(context, carrier, added, outputs, written)
                    &&& built.uexp.subrange(at as int, at + list.len()) == list
                    &&& built.raw_audit.audit.ledger == start.ledger + marks_of_rows(written)
                }
        },
{
    let carrier = carrier_from(parsed, carrier_index, 0);
    carriers_are_there(parsed, carrier_index, 0);
    let provider = parsed[carrier];
    let added = appended_ids(parsed, carrier);
    let context = build_context(plan, resolutions, opened, parsed, carrier);
    if merged_database(
        plan,
        resolutions,
        opened,
        parsed,
        carrier_index,
        Ok(header),
        outputs,
    ) is Ok {
        let start = empty_audit(provider.group.base_path, provider.group.components.uexp->0);
        let first = BuildView { rows: Seq::empty(), audit: start, preserved: 0, replaced: 0 };
        assert(start.ledger + marks_of_rows(Seq::empty()) =~= start.ledger);
        let base = base_rows_are_written(
            first,
            context,
            carrier,
            outputs,
            0,
            Seq::empty(),
            start.ledger,
        );
        let state = carrier_rows_from(first, context, carrier, outputs, 0)->Ok_0;
        assert(added.skip(0) =~= added);
        assert(added.take(0) =~= Seq::empty());
        let written = added_rows_are_written(
            state,
            context,
            carrier,
            added,
            outputs,
            0,
            base,
            start.ledger,
        );
        let built = all_rows(context, carrier, start, outputs)->Ok_0;
        merged_databases_keep_their_shell(provider.asset, header@, built.rows);
        collected_ids_are_those_of_the_rows(parsed, 0);
        ids_without_ascend(all_ids_from(Seq::empty(), parsed), provider.asset.rows@);
        assert(stands_for_table(context, carrier, added, outputs, written));
    }
}

proof fn carriers_are_there(parsed: Seq<ParsedDbProviderView>, carrier_index: usize, at: int)
    requires
        0 <= at,
        parsed.len() > 0,
    ensures
        0 <= carrier_from(parsed, carrier_index, at) < parsed.len(),
    decreases parsed.len() - at,
{
    if at < parsed.len() {
        carriers_are_there(parsed, carrier_index, at + 1);
    }
}

} // verus!
