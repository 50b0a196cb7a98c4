//! When the values of a row need a choice: exactly where providers mean different
//! things by them.
use vstd::prelude::*;

use super::database::{
    field_names, row_from, AtomicGroupView, DatabaseRow, ParsedDbProviderView, RowUnit,
};
use super::conflicts::{conflict_of, ordered_variants, ordering_keeps_the_variants};
use super::error::MergeErrorView;
use super::opened::OpenedPakView;
use super::rows::{
    added_row_findings, all_hashes_from, carrier_row_findings, column, compared_from,
    comparison_of, drifted, groups_of, hashes_of, no_flags, other_row_variants, pending_conflicts,
    pending_from, pending_groups, pending_message, provider_variants_from, row_differs_from,
    row_variant, unit_findings, unit_of, unit_variant, variant_table, variant_table_from,
    whole_row_variants, with_donor_from, DriftCount, PendingUnit, RowComparisonView,
    MAX_ENCODING_DRIFT_SAMPLES_PER_ASSET,
};
use super::types::{ConflictKind, ConflictView, InputDescriptorView, VariantView};
use crate::text::signed_dec;

verus! {

/// One of the digests of a unit's values: that of their meaning, or that of how they
/// are stored.
pub open spec fn digest_by(hashes: (Seq<char>, Seq<char>), meaning: bool) -> Seq<char> {
    if meaning {
        hashes.1
    } else {
        hashes.0
    }
}

/// One of the marks of a unit: that its values differ in meaning, or in storage.
pub open spec fn mark_by(flags: (bool, bool), meaning: bool) -> bool {
    if meaning {
        flags.0
    } else {
        flags.1
    }
}

/// A provider has the row too, and the values of one of its units differ there from
/// those of the base Pak.
pub open spec fn differs_by(
    parsed: Seq<ParsedDbProviderView>,
    provider: int,
    carrier: int,
    row: DatabaseRow,
    group: AtomicGroupView,
    meaning: bool,
) -> bool {
    &&& 0 <= provider < parsed.len()
    &&& provider != carrier
    &&& row_from(parsed[provider].asset.rows@, row.id) matches Some(other) && hashes_of(
        other,
        group,
    ) matches Ok(found) && hashes_of(row, group) matches Ok(own) && digest_by(found, meaning)
        != digest_by(own, meaning)
}

/// A provider has the row too and means something else by one of its units.
pub open spec fn means_otherwise(
    parsed: Seq<ParsedDbProviderView>,
    provider: int,
    carrier: int,
    row: DatabaseRow,
    group: AtomicGroupView,
) -> bool {
    differs_by(parsed, provider, carrier, row, group, true)
}

/// A provider has the row too and stores one of its units otherwise.
pub open spec fn stores_otherwise(
    parsed: Seq<ParsedDbProviderView>,
    provider: int,
    carrier: int,
    row: DatabaseRow,
    group: AtomicGroupView,
) -> bool {
    differs_by(parsed, provider, carrier, row, group, false)
}

proof fn hashes_stand_in_order(
    done: Seq<(Seq<char>, Seq<char>)>,
    row: DatabaseRow,
    groups: Seq<AtomicGroupView>,
    at: int,
)
    requires
        0 <= at < groups.len(),
    ensures
        all_hashes_from(done, row, groups) matches Ok(all) ==> all.len() == done.len() + groups.len()
            && hashes_of(row, groups[at]) == Ok::<(Seq<char>, Seq<char>), MergeErrorView>(
            all[done.len() + at],
        ),
    decreases groups.len(),
{
    match hashes_of(row, groups[0]) {
        Err(_) => {},
        Ok(hashes) => {
            let rest = groups.skip(1);
            if at > 0 {
                assert(rest[at - 1] == groups[at]);
                hashes_stand_in_order(done.push(hashes), row, rest, at - 1);
            } else {
                let more = done.push(hashes);
                hashes_are_appended(more, row, rest);
                assert(more[done.len() as int] == hashes);
            }
        },
    }
}

proof fn hashes_are_appended(
    done: Seq<(Seq<char>, Seq<char>)>,
    row: DatabaseRow,
    groups: Seq<AtomicGroupView>,
)
    ensures
        all_hashes_from(done, row, groups) matches Ok(all) ==> all.len() == done.len() + groups.len()
            && forall|i: int| 0 <= i < done.len() ==> all[i] == #[trigger] done[i],
    decreases groups.len(),
{
    if groups.len() > 0 {
        match hashes_of(row, groups[0]) {
            Err(_) => {},
            Ok(hashes) => {
                let more = done.push(hashes);
                hashes_are_appended(more, row, groups.skip(1));
                assert(forall|i: int| 0 <= i < done.len() ==> more[i] == #[trigger] done[i]);
            },
        }
    }
}

proof fn donor_raises_flags(
    done: Seq<(bool, bool)>,
    flags: Seq<(bool, bool)>,
    first: Seq<(Seq<char>, Seq<char>)>,
    donor: DatabaseRow,
    groups: Seq<AtomicGroupView>,
    at: int,
    meaning: bool,
)
    requires
        0 <= at < groups.len(),
        done.len() <= groups.len(),
        at < done.len() ==> (hashes_of(donor, groups[at]) matches Ok(found) && mark_by(
            done[at],
            meaning,
        ) == (mark_by(flags[at], meaning) || digest_by(first[at], meaning) != digest_by(
            found,
            meaning,
        ))),
    ensures
        with_donor_from(done, flags, first, donor, groups) matches Ok(after) ==> after.len()
            == groups.len() && (hashes_of(donor, groups[at]) matches Ok(found) && mark_by(
            after[at],
            meaning,
        ) == (mark_by(flags[at], meaning) || digest_by(first[at], meaning) != digest_by(
            found,
            meaning,
        ))),
    decreases groups.len() - done.len(),
{
    let next = done.len() as int;
    if next < groups.len() {
        match hashes_of(donor, groups[next]) {
            Err(_) => {},
            Ok((raw, semantic)) => {
                donor_raises_flags(
                    done.push(
                        (flags[next].0 || first[next].1 != semantic, flags[next].1 || first[next].0
                            != raw),
                    ),
                    flags,
                    first,
                    donor,
                    groups,
                    at,
                    meaning,
                );
            },
        }
    }
}

proof fn flags_follow_the_providers(
    state: RowComparisonView,
    parsed: Seq<ParsedDbProviderView>,
    from: int,
    carrier: int,
    row: DatabaseRow,
    groups: Seq<AtomicGroupView>,
    first: Seq<(Seq<char>, Seq<char>)>,
    at: int,
    meaning: bool,
)
    requires
        0 <= from,
        0 <= at < groups.len(),
        state.flags.len() == groups.len(),
        hashes_of(row, groups[at]) == Ok::<(Seq<char>, Seq<char>), MergeErrorView>(first[at]),
    ensures
        compared_from(state, parsed, from, carrier, row, groups, first) matches Ok(found) ==> {
            &&& state.shape_mismatch ==> found.shape_mismatch
            &&& state.layout_mismatch ==> found.layout_mismatch
            &&& found.flags.len() == groups.len()
            &&& !found.shape_mismatch && !found.layout_mismatch ==> (mark_by(
                found.flags[at],
                meaning,
            ) <==> (mark_by(state.flags[at], meaning) || exists|provider: int|
                from <= provider && #[trigger] differs_by(
                    parsed,
                    provider,
                    carrier,
                    row,
                    groups[at],
                    meaning,
                )))
        },
    decreases parsed.len() - from,
{
    if from < parsed.len() {
        let donor = row_from(parsed[from].asset.rows@, row.id);
        let next = if from == carrier || donor is None {
            Some(state)
        } else if field_names(donor->0) != field_names(row) {
            Some(RowComparisonView { shape_mismatch: true, ..state })
        } else {
            match donor->0.units {
                Err(_) => None,
                Ok(units) => if groups_of(units@) != groups {
                    Some(RowComparisonView { layout_mismatch: true, ..state })
                } else {
                    donor_raises_flags(Seq::empty(), state.flags, first, donor->0, groups, at, meaning);
                    match with_donor_from(Seq::empty(), state.flags, first, donor->0, groups) {
                        Err(_) => None,
                        Ok(flags) => Some(RowComparisonView { flags, ..state }),
                    }
                },
            }
        };
        if let Some(after) = next {
            flags_follow_the_providers(
                after,
                parsed,
                from + 1,
                carrier,
                row,
                groups,
                first,
                at,
                meaning,
            );
            let group = groups[at];
            if exists|provider: int|
                from <= provider && #[trigger] differs_by(
                    parsed,
                    provider,
                    carrier,
                    row,
                    group,
                    meaning,
                ) {
                let provider = choose|provider: int|
                    from <= provider && #[trigger] differs_by(
                        parsed,
                        provider,
                        carrier,
                        row,
                        group,
                        meaning,
                    );
                if provider != from {
                    assert(from + 1 <= provider && differs_by(
                        parsed,
                        provider,
                        carrier,
                        row,
                        group,
                        meaning,
                    ));
                }
            }
            if !after.shape_mismatch && !after.layout_mismatch && from != carrier && donor is Some
                && mark_by(after.flags[at], meaning) && !mark_by(state.flags[at], meaning) {
                assert(differs_by(parsed, from, carrier, row, group, meaning));
            }
        }
    }
}

/// A unit of a row is marked as different exactly when some provider means
/// something else by it than the base Pak, and as stored differently exactly when some
/// provider stores it otherwise.
pub proof fn marked_exactly_where_meanings_differ(
    parsed: Seq<ParsedDbProviderView>,
    carrier: int,
    row: DatabaseRow,
    units: Seq<RowUnit>,
    at: int,
)
    requires
        0 <= at < groups_of(units).len(),
    ensures
        comparison_of(parsed, carrier, row, units) matches Ok(found) ==> !found.shape_mismatch
            && !found.layout_mismatch ==> {
            &&& found.flags.len() == groups_of(units).len()
            &&& found.flags[at].0 <==> exists|provider: int| #[trigger]
                means_otherwise(parsed, provider, carrier, row, groups_of(units)[at])
            &&& found.flags[at].1 <==> exists|provider: int| #[trigger]
                stores_otherwise(parsed, provider, carrier, row, groups_of(units)[at])
        },
{
    marks_follow(parsed, carrier, row, units, at, true);
    marks_follow(parsed, carrier, row, units, at, false);
    let group = groups_of(units)[at];
    if exists|provider: int| #[trigger] differs_by(parsed, provider, carrier, row, group, true) {
        let provider = choose|provider: int| #[trigger]
            differs_by(parsed, provider, carrier, row, group, true);
        assert(means_otherwise(parsed, provider, carrier, row, group));
    }
    if exists|provider: int| #[trigger] differs_by(parsed, provider, carrier, row, group, false) {
        let provider = choose|provider: int| #[trigger]
            differs_by(parsed, provider, carrier, row, group, false);
        assert(stores_otherwise(parsed, provider, carrier, row, group));
    }
}

proof fn marks_follow(
    parsed: Seq<ParsedDbProviderView>,
    carrier: int,
    row: DatabaseRow,
    units: Seq<RowUnit>,
    at: int,
    meaning: bool,
)
    requires
        0 <= at < groups_of(units).len(),
    ensures
        comparison_of(parsed, carrier, row, units) matches Ok(found) ==> !found.shape_mismatch
            && !found.layout_mismatch ==> found.flags.len() == groups_of(units).len() && (mark_by(
            found.flags[at],
            meaning,
        ) <==> exists|provider: int| #[trigger]
            differs_by(parsed, provider, carrier, row, groups_of(units)[at], meaning)),
{
    let groups = groups_of(units);
    hashes_stand_in_order(Seq::empty(), row, groups, at);
    match all_hashes_from(Seq::empty(), row, groups) {
        Err(_) => {},
        Ok(first) => {
            flags_follow_the_providers(
                RowComparisonView {
                    flags: no_flags(groups.len()),
                    shape_mismatch: false,
                    layout_mismatch: false,
                },
                parsed,
                0,
                carrier,
                row,
                groups,
                first,
                at,
                meaning,
            );
        },
    }
}

/// The blocking units among those that become conflicts.
pub open spec fn blocks(pending: Seq<PendingUnit>, unit: int) -> bool {
    exists|i: int| 0 <= i < pending.len() && (#[trigger] pending[i]).blocking && pending[i].unit == unit
}

proof fn marked_units_become_pending(
    done: Seq<PendingUnit>,
    drift: DriftCount,
    groups: Seq<AtomicGroupView>,
    flags: Seq<(bool, bool)>,
    from: int,
    unit: int,
)
    requires
        0 <= from <= groups.len() <= usize::MAX,
        0 <= unit < groups.len(),
    ensures
        blocks(pending_from(done, drift, groups, flags, from).0, unit) <==> (blocks(done, unit) || (
        from <= unit && flags[unit].0)),
    decreases groups.len() - from,
{
    if from < groups.len() {
        if flags[from].0 {
            let item = PendingUnit {
                unit: from as usize,
                kind: if groups[from].compound || groups[from].fields.len() > 1 {
                    ConflictKind::AtomicGroup
                } else {
                    ConflictKind::FieldValue
                },
                blocking: true,
            };
            one_more_blocks(done, item, unit);
            marked_units_become_pending(done.push(item), drift, groups, flags, from + 1, unit);
        } else if flags[from].1 {
            let item = PendingUnit {
                unit: from as usize,
                kind: ConflictKind::EncodingDrift,
                blocking: false,
            };
            one_more_blocks(done, item, unit);
            marked_units_become_pending(
                if drift.samples < MAX_ENCODING_DRIFT_SAMPLES_PER_ASSET {
                    done.push(item)
                } else {
                    done
                },
                drifted(drift),
                groups,
                flags,
                from + 1,
                unit,
            );
        } else {
            marked_units_become_pending(done, drift, groups, flags, from + 1, unit);
        }
    }
}

proof fn one_more_blocks(done: Seq<PendingUnit>, item: PendingUnit, unit: int)
    ensures
        blocks(done.push(item), unit) <==> blocks(done, unit) || (item.blocking && item.unit == unit),
{
    let more = done.push(item);
    if blocks(done, unit) {
        let i = choose|i: int|
            0 <= i < done.len() && (#[trigger] done[i]).blocking && done[i].unit == unit;
        assert(more[i] == done[i]);
    }
    if item.blocking && item.unit == unit {
        assert(more[done.len() as int] == item);
    }
    if blocks(more, unit) {
        let i = choose|i: int|
            0 <= i < more.len() && (#[trigger] more[i]).blocking && more[i].unit == unit;
        if i < done.len() {
            assert(done[i] == more[i]);
        }
    }
}

proof fn pending_conflict_parts(
    asset_path: Seq<char>,
    row_id: i64,
    groups: Seq<AtomicGroupView>,
    pending: Seq<PendingUnit>,
    table: Seq<Seq<VariantView>>,
    at: int,
)
    requires
        0 <= at < pending.len(),
    ensures
        pending_conflicts(asset_path, row_id, groups, pending, table).len() == pending.len(),
        pending_conflicts(asset_path, row_id, groups, pending, table)[at].blocking
            == pending[at].blocking,
        pending_conflicts(asset_path, row_id, groups, pending, table)[at].group_id == Some(
            groups[pending[at].unit as int].id,
        ),
{
}

proof fn unit_findings_hold(
    opened: Seq<OpenedPakView>,
    parsed: Seq<ParsedDbProviderView>,
    carrier: int,
    asset_path: Seq<char>,
    row: DatabaseRow,
    drift: DriftCount,
    groups: Seq<AtomicGroupView>,
    flags: Seq<(bool, bool)>,
    at: int,
)
    requires
        0 <= at < pending_from(Seq::empty(), drift, groups, flags, 0).0.len(),
    ensures
        unit_findings(opened, parsed, carrier, asset_path, row, drift, groups, flags) matches Ok(
            findings,
        ) ==> {
            let item = pending_from(Seq::empty(), drift, groups, flags, 0).0[at];
            &&& at < findings.conflicts.len()
            &&& findings.conflicts[at].blocking == item.blocking
            &&& findings.conflicts[at].group_id == Some(groups[item.unit as int].id)
        },
{
    let pending = pending_from(Seq::empty(), drift, groups, flags, 0).0;
    match variant_table(opened, parsed, carrier, row, pending_groups(groups, pending)) {
        Err(_) => {},
        Ok(table) => {
            pending_conflict_parts(asset_path, row.id, groups, pending, table, at);
        },
    }
}

/// Where providers have a row in the same layout, and one of them means something
/// else by a unit of it than the base Pak, the row has a conflict over that unit
/// that needs a choice.
pub proof fn different_values_need_a_choice(
    opened: Seq<OpenedPakView>,
    parsed: Seq<ParsedDbProviderView>,
    carrier: int,
    asset_path: Seq<char>,
    row: DatabaseRow,
    drift: DriftCount,
    units: Vec<RowUnit>,
    found: RowComparisonView,
    provider: int,
    unit: int,
)
    requires
        row.units == Ok::<Vec<RowUnit>, String>(units),
        units@.len() <= usize::MAX,
        comparison_of(parsed, carrier, row, units@) == Ok::<RowComparisonView, MergeErrorView>(found),
        !found.shape_mismatch,
        !found.layout_mismatch,
        0 <= unit < units@.len(),
        means_otherwise(parsed, provider, carrier, row, groups_of(units@)[unit]),
    ensures
        carrier_row_findings(opened, parsed, carrier, asset_path, row, drift) matches Ok(findings)
            ==> exists|i: int|
            0 <= i < findings.conflicts.len() && (#[trigger] findings.conflicts[i]).blocking
                && findings.conflicts[i].group_id == Some(groups_of(units@)[unit].id),
{
    let groups = groups_of(units@);
    marked_exactly_where_meanings_differ(parsed, carrier, row, units@, unit);
    let (pending, after) = pending_from(Seq::empty(), drift, groups, found.flags, 0);
    marked_units_become_pending(Seq::empty(), drift, groups, found.flags, 0, unit);
    assert(blocks(pending, unit));
    let i = choose|i: int|
        0 <= i < pending.len() && (#[trigger] pending[i]).blocking && pending[i].unit == unit;
    unit_findings_hold(opened, parsed, carrier, asset_path, row, drift, groups, found.flags, i);
}

/// A provider has the row too, with other fields or divided into other units.
pub open spec fn laid_out_otherwise(
    parsed: Seq<ParsedDbProviderView>,
    provider: int,
    carrier: int,
    row: DatabaseRow,
    groups: Seq<AtomicGroupView>,
) -> bool {
    &&& 0 <= provider < parsed.len()
    &&& provider != carrier
    &&& row_from(parsed[provider].asset.rows@, row.id) matches Some(other) && (field_names(other)
        != field_names(row) || (other.units matches Ok(units) && groups_of(units@) != groups))
}

/// Some provider has the row with another layout.
pub open spec fn some_layout_differs(
    parsed: Seq<ParsedDbProviderView>,
    carrier: int,
    row: DatabaseRow,
    groups: Seq<AtomicGroupView>,
) -> bool {
    exists|provider: int| #[trigger] laid_out_otherwise(parsed, provider, carrier, row, groups)
}

proof fn mismatches_follow_the_providers(
    state: RowComparisonView,
    parsed: Seq<ParsedDbProviderView>,
    from: int,
    carrier: int,
    row: DatabaseRow,
    groups: Seq<AtomicGroupView>,
    first: Seq<(Seq<char>, Seq<char>)>,
)
    requires
        0 <= from,
    ensures
        compared_from(state, parsed, from, carrier, row, groups, first) matches Ok(found) ==> (
        found.shape_mismatch || found.layout_mismatch <==> state.shape_mismatch
            || state.layout_mismatch || exists|provider: int|
            from <= provider && #[trigger] laid_out_otherwise(
                parsed,
                provider,
                carrier,
                row,
                groups,
            )),
    decreases parsed.len() - from,
{
    if from < parsed.len() {
        let donor = row_from(parsed[from].asset.rows@, row.id);
        let next = if from == carrier || donor is None {
            Some(state)
        } else if field_names(donor->0) != field_names(row) {
            Some(RowComparisonView { shape_mismatch: true, ..state })
        } else {
            match donor->0.units {
                Err(_) => None,
                Ok(units) => if groups_of(units@) != groups {
                    Some(RowComparisonView { layout_mismatch: true, ..state })
                } else {
                    match with_donor_from(Seq::empty(), state.flags, first, donor->0, groups) {
                        Err(_) => None,
                        Ok(flags) => Some(RowComparisonView { flags, ..state }),
                    }
                },
            }
        };
        if let Some(after) = next {
            mismatches_follow_the_providers(after, parsed, from + 1, carrier, row, groups, first);
            if exists|provider: int|
                from <= provider && #[trigger] laid_out_otherwise(
                    parsed,
                    provider,
                    carrier,
                    row,
                    groups,
                ) {
                let provider = choose|provider: int|
                    from <= provider && #[trigger] laid_out_otherwise(
                        parsed,
                        provider,
                        carrier,
                        row,
                        groups,
                    );
                if provider != from {
                    assert(from + 1 <= provider && laid_out_otherwise(
                        parsed,
                        provider,
                        carrier,
                        row,
                        groups,
                    ));
                }
            }
            if (after.shape_mismatch || after.layout_mismatch) && !state.shape_mismatch
                && !state.layout_mismatch {
                assert(laid_out_otherwise(parsed, from, carrier, row, groups));
            }
        }
    }
}

/// A conflict has a variant of the input with this id and these digests.
pub open spec fn offers(
    conflict: ConflictView,
    input_id: Seq<char>,
    hashes: (Seq<char>, Seq<char>),
) -> bool {
    exists|v: int|
        0 <= v < conflict.variants.len() && (#[trigger] conflict.variants[v]).input_id == input_id
            && conflict.variants[v].raw_sha256 == hashes.0 && conflict.variants[v].semantic_sha256
            == hashes.1
}

/// A conflict is about a group of a row of an asset.
pub open spec fn is_about(
    conflict: ConflictView,
    asset_path: Seq<char>,
    row_id: i64,
    group_id: Seq<char>,
) -> bool {
    &&& conflict.asset_path == asset_path
    &&& conflict.row_id == Some(signed_dec(row_id as int))
    &&& conflict.group_id == Some(group_id)
}

/// The id of the input that a provider is.
pub open spec fn provider_id(
    opened: Seq<OpenedPakView>,
    parsed: Seq<ParsedDbProviderView>,
    provider: int,
) -> Seq<char> {
    opened[parsed[provider].input_index as int].descriptor.id
}

/// A conflict over a row as a whole offers the row of every provider that has it.
pub open spec fn offers_each_row(
    conflict: ConflictView,
    opened: Seq<OpenedPakView>,
    parsed: Seq<ParsedDbProviderView>,
    row_id: i64,
) -> bool {
    forall|provider: int|
        0 <= provider < parsed.len() ==> (row_from(
            (#[trigger] parsed[provider]).asset.rows@,
            row_id,
        ) matches Some(row) ==> offers(
            conflict,
            provider_id(opened, parsed, provider),
            (row.raw_sha256@, row.semantic_sha256@),
        ))
}

/// A conflict over a unit of a row offers the values of every provider that has the
/// row.
pub open spec fn offers_each_value(
    conflict: ConflictView,
    opened: Seq<OpenedPakView>,
    parsed: Seq<ParsedDbProviderView>,
    row_id: i64,
    group: AtomicGroupView,
) -> bool {
    forall|provider: int|
        0 <= provider < parsed.len() ==> (row_from(
            (#[trigger] parsed[provider]).asset.rows@,
            row_id,
        ) matches Some(row) ==> (hashes_of(row, group) matches Ok(hashes) && offers(
            conflict,
            provider_id(opened, parsed, provider),
            hashes,
        )))
}

proof fn ordered_variants_are_offered(
    kind: ConflictKind,
    asset_path: Seq<char>,
    row_id: i64,
    group_id: Seq<char>,
    message: Seq<char>,
    variants: Seq<VariantView>,
    blocking: bool,
    at: int,
)
    requires
        0 <= at < variants.len(),
    ensures
        offers(
            conflict_of(
                kind,
                asset_path,
                Some(row_id),
                Some(group_id),
                message,
                variants,
                blocking,
            ),
            variants[at].input_id,
            (variants[at].raw_sha256, variants[at].semantic_sha256),
        ),
{
    broadcast use vstd::seq_lib::group_to_multiset_ensures;

    ordering_keeps_the_variants(variants);
    let ordered = ordered_variants(variants);
    assert(variants.contains(variants[at]));
    assert(ordered.to_multiset().count(variants[at]) > 0);
    assert(ordered.contains(variants[at]));
    let v = choose|v: int| 0 <= v < ordered.len() && ordered[v] == variants[at];
    let conflict = conflict_of(
        kind,
        asset_path,
        Some(row_id),
        Some(group_id),
        message,
        variants,
        blocking,
    );
    assert(conflict.variants[v] == variants[at]);
}

/// Where the variant of a provider's row stands.
proof fn row_variants_hold(
    done: Seq<VariantView>,
    opened: Seq<OpenedPakView>,
    parsed: Seq<ParsedDbProviderView>,
    at: int,
    except: int,
    asset_path: Seq<char>,
    row_id: i64,
    group_id: Seq<char>,
    provider: int,
)
    requires
        0 <= at,
    ensures
        ({
            let all = other_row_variants(
                done,
                opened,
                parsed,
                at,
                except,
                asset_path,
                row_id,
                group_id,
            );
            &&& all.len() >= done.len()
            &&& forall|v: int| 0 <= v < done.len() ==> #[trigger] done[v] == all[v]
            &&& at <= provider < parsed.len() && provider != except ==> (row_from(
                parsed[provider].asset.rows@,
                row_id,
            ) matches Some(row) ==> all.contains(
                row_variant(
                    opened[parsed[provider].input_index as int].descriptor,
                    parsed[provider],
                    asset_path,
                    row_id,
                    group_id,
                    row,
                ),
            ))
        }),
    decreases parsed.len() - at,
{
    if at < parsed.len() {
        let next = if at == except {
            done
        } else {
            match row_from(parsed[at].asset.rows@, row_id) {
                None => done,
                Some(row) => done.push(
                    row_variant(
                        opened[parsed[at].input_index as int].descriptor,
                        parsed[at],
                        asset_path,
                        row_id,
                        group_id,
                        row,
                    ),
                ),
            }
        };
        row_variants_hold(
            next,
            opened,
            parsed,
            at + 1,
            except,
            asset_path,
            row_id,
            group_id,
            provider,
        );
        let all = other_row_variants(
            next,
            opened,
            parsed,
            at + 1,
            except,
            asset_path,
            row_id,
            group_id,
        );
        assert forall|v: int| 0 <= v < done.len() implies #[trigger] done[v] == all[v] by {
            assert(next[v] == done[v]);
        }
        if provider == at && at != except && row_from(parsed[at].asset.rows@, row_id) is Some {
            let last = next.len() - 1;
            assert(next[last] == all[last]);
        }
    }
}

proof fn whole_rows_are_offered(
    opened: Seq<OpenedPakView>,
    parsed: Seq<ParsedDbProviderView>,
    carrier: int,
    asset_path: Seq<char>,
    row: DatabaseRow,
    message: Seq<char>,
)
    requires
        0 <= carrier < parsed.len(),
        row_from(parsed[carrier].asset.rows@, row.id) == Some(row),
    ensures
        offers_each_row(
            conflict_of(
                ConflictKind::StructureMismatch,
                asset_path,
                Some(row.id),
                Some("__whole_row__"@),
                message,
                whole_row_variants(opened, parsed, carrier, asset_path, row),
                true,
            ),
            opened,
            parsed,
            row.id,
        ),
{
    let variants = whole_row_variants(opened, parsed, carrier, asset_path, row);
    let own = row_variant(
        opened[parsed[carrier].input_index as int].descriptor,
        parsed[carrier],
        asset_path,
        row.id,
        "__whole_row__"@,
        row,
    );
    let conflict = conflict_of(
        ConflictKind::StructureMismatch,
        asset_path,
        Some(row.id),
        Some("__whole_row__"@),
        message,
        variants,
        true,
    );
    assert forall|provider: int| 0 <= provider < parsed.len() implies (row_from(
        (#[trigger] parsed[provider]).asset.rows@,
        row.id,
    ) matches Some(other) ==> offers(
        conflict,
        provider_id(opened, parsed, provider),
        (other.raw_sha256@, other.semantic_sha256@),
    )) by {
        if let Some(other) = row_from(parsed[provider].asset.rows@, row.id) {
            row_variants_hold(
                seq![own],
                opened,
                parsed,
                0,
                carrier,
                asset_path,
                row.id,
                "__whole_row__"@,
                provider,
            );
            let wanted = row_variant(
                opened[parsed[provider].input_index as int].descriptor,
                parsed[provider],
                asset_path,
                row.id,
                "__whole_row__"@,
                other,
            );
            if provider == carrier {
                assert(seq![own][0] == variants[0]);
                assert(variants[0] == wanted);
            }
            assert(variants.contains(wanted));
            let v = choose|v: int| 0 <= v < variants.len() && variants[v] == wanted;
            ordered_variants_are_offered(
                ConflictKind::StructureMismatch,
                asset_path,
                row.id,
                "__whole_row__"@,
                message,
                variants,
                true,
                v,
            );
        }
    }
}

proof fn provider_variants_stand(
    done: Seq<VariantView>,
    input: InputDescriptorView,
    provider: ParsedDbProviderView,
    row: DatabaseRow,
    groups: Seq<AtomicGroupView>,
    at: int,
)
    ensures
        provider_variants_from(done, input, provider, row, groups) matches Ok(all) ==> {
            &&& all.len() == done.len() + groups.len()
            &&& forall|v: int| 0 <= v < done.len() ==> #[trigger] done[v] == all[v]
            &&& 0 <= at < groups.len() ==> (hashes_of(row, groups[at]) matches Ok(hashes)
                && all[done.len() + at].input_id == input.id && all[done.len() + at].raw_sha256
                == hashes.0 && all[done.len() + at].semantic_sha256 == hashes.1)
        },
    decreases groups.len(),
{
    if groups.len() > 0 {
        match hashes_of(row, groups[0]) {
            Err(_) => {},
            Ok(hashes) => {
                let more = done.push(
                    unit_variant(input, provider, row.id, unit_of(row, groups[0])->Ok_0, hashes),
                );
                let rest = groups.skip(1);
                provider_variants_stand(more, input, provider, row, rest, at - 1);
                if let Ok(all) = provider_variants_from(more, input, provider, row, rest) {
                    assert forall|v: int| 0 <= v < done.len() implies #[trigger] done[v] == all[v] by {
                        assert(more[v] == done[v]);
                    }
                    if at == 0 {
                        assert(more[done.len() as int] == all[done.len() as int]);
                    } else if 0 < at < groups.len() {
                        assert(rest[at - 1] == groups[at]);
                    }
                }
            },
        }
    }
}

/// A list of a table of variants is that of the input with an id, with the values of a
/// row.
spec fn lists_values(
    list: Seq<VariantView>,
    input_id: Seq<char>,
    row: DatabaseRow,
    groups: Seq<AtomicGroupView>,
) -> bool {
    &&& list.len() == groups.len()
    &&& forall|i: int|
        0 <= i < groups.len() ==> (hashes_of(row, groups[i]) matches Ok(hashes) && (
        #[trigger] list[i]).input_id == input_id && list[i].raw_sha256 == hashes.0
            && list[i].semantic_sha256 == hashes.1)
}

proof fn provider_lists_values(
    input: InputDescriptorView,
    provider: ParsedDbProviderView,
    row: DatabaseRow,
    groups: Seq<AtomicGroupView>,
)
    ensures
        provider_variants_from(Seq::empty(), input, provider, row, groups) matches Ok(all)
            ==> lists_values(all, input.id, row, groups),
{
    if let Ok(all) = provider_variants_from(Seq::empty(), input, provider, row, groups) {
        provider_variants_stand(Seq::empty(), input, provider, row, groups, -1);
        assert forall|i: int| 0 <= i < groups.len() implies (hashes_of(row, groups[i]) matches Ok(
            hashes,
        ) && (#[trigger] all[i]).input_id == input.id && all[i].raw_sha256 == hashes.0
            && all[i].semantic_sha256 == hashes.1) by {
            provider_variants_stand(Seq::empty(), input, provider, row, groups, i);
        }
    }
}

proof fn tables_hold_each_provider(
    done: Seq<Seq<VariantView>>,
    opened: Seq<OpenedPakView>,
    parsed: Seq<ParsedDbProviderView>,
    at: int,
    carrier: int,
    row_id: i64,
    groups: Seq<AtomicGroupView>,
    provider: int,
)
    requires
        0 <= at,
    ensures
        variant_table_from(done, opened, parsed, at, carrier, row_id, groups) matches Ok(table) ==> {
            &&& table.len() >= done.len()
            &&& forall|t: int| 0 <= t < done.len() ==> #[trigger] done[t] == table[t]
            &&& at <= provider < parsed.len() && provider != carrier ==> (row_from(
                parsed[provider].asset.rows@,
                row_id,
            ) matches Some(row) ==> exists|t: int|
                0 <= t < table.len() && lists_values(
                    #[trigger] table[t],
                    provider_id(opened, parsed, provider),
                    row,
                    groups,
                ))
        },
    decreases parsed.len() - at,
{
    if at < parsed.len() {
        let row = row_from(parsed[at].asset.rows@, row_id);
        if at == carrier || row is None {
            tables_hold_each_provider(
                done,
                opened,
                parsed,
                at + 1,
                carrier,
                row_id,
                groups,
                provider,
            );
        } else {
            let input = opened[parsed[at].input_index as int].descriptor;
            match provider_variants_from(Seq::empty(), input, parsed[at], row->0, groups) {
                Err(_) => {},
                Ok(list) => {
                    let more = done.push(list);
                    tables_hold_each_provider(
                        more,
                        opened,
                        parsed,
                        at + 1,
                        carrier,
                        row_id,
                        groups,
                        provider,
                    );
                    provider_lists_values(input, parsed[at], row->0, groups);
                    if let Ok(table) = variant_table_from(
                        more,
                        opened,
                        parsed,
                        at + 1,
                        carrier,
                        row_id,
                        groups,
                    ) {
                        assert forall|t: int| 0 <= t < done.len() implies #[trigger] done[t]
                            == table[t] by {
                            assert(more[t] == done[t]);
                        }
                        if provider == at {
                            assert(more[done.len() as int] == table[done.len() as int]);
                            assert(lists_values(
                                table[done.len() as int],
                                provider_id(opened, parsed, provider),
                                row->0,
                                groups,
                            ));
                        }
                    }
                },
            }
        }
    }
}

proof fn unit_values_are_offered(
    opened: Seq<OpenedPakView>,
    parsed: Seq<ParsedDbProviderView>,
    carrier: int,
    asset_path: Seq<char>,
    row: DatabaseRow,
    groups: Seq<AtomicGroupView>,
    pending: Seq<PendingUnit>,
    table: Seq<Seq<VariantView>>,
    at: int,
)
    requires
        0 <= carrier < parsed.len(),
        row_from(parsed[carrier].asset.rows@, row.id) == Some(row),
        0 <= at < pending.len(),
        variant_table(opened, parsed, carrier, row, pending_groups(groups, pending)) == Ok::<
            Seq<Seq<VariantView>>,
            MergeErrorView,
        >(table),
    ensures
        offers_each_value(
            pending_conflicts(asset_path, row.id, groups, pending, table)[at],
            opened,
            parsed,
            row.id,
            groups[pending[at].unit as int],
        ),
{
    let picked = pending_groups(groups, pending);
    let conflict = pending_conflicts(asset_path, row.id, groups, pending, table)[at];
    let variants = column(table, at);
    let input = opened[parsed[carrier].input_index as int].descriptor;
    let first = provider_variants_from(Seq::empty(), input, parsed[carrier], row, picked)->Ok_0;
    provider_lists_values(input, parsed[carrier], row, picked);
    assert forall|provider: int| 0 <= provider < parsed.len() implies (row_from(
        (#[trigger] parsed[provider]).asset.rows@,
        row.id,
    ) matches Some(other) ==> (hashes_of(other, groups[pending[at].unit as int]) matches Ok(hashes)
        && offers(conflict, provider_id(opened, parsed, provider), hashes))) by {
        if let Some(other) = row_from(parsed[provider].asset.rows@, row.id) {
            tables_hold_each_provider(
                seq![first],
                opened,
                parsed,
                0,
                carrier,
                row.id,
                picked,
                provider,
            );
            if provider == carrier {
                assert(seq![first][0] == table[0]);
                assert(lists_values(
                    table[0],
                    provider_id(opened, parsed, provider),
                    other,
                    picked,
                ));
            }
            let t = choose|t: int|
                0 <= t < table.len() && lists_values(
                    #[trigger] table[t],
                    provider_id(opened, parsed, provider),
                    other,
                    picked,
                );
            assert(picked[at] == groups[pending[at].unit as int]);
            assert(table[t][at].input_id == provider_id(opened, parsed, provider));
            assert(variants[t] == table[t][at]);
            ordered_variants_are_offered(
                pending[at].kind,
                asset_path,
                row.id,
                groups[pending[at].unit as int].id,
                pending_message(pending[at]),
                variants,
                pending[at].blocking,
                t,
            );
        }
    }
}

proof fn pending_units_are_marked(
    done: Seq<PendingUnit>,
    drift: DriftCount,
    groups: Seq<AtomicGroupView>,
    flags: Seq<(bool, bool)>,
    from: int,
)
    requires
        0 <= from <= groups.len() <= usize::MAX,
        forall|i: int| 0 <= i < done.len() ==> pends_rightly(#[trigger] done[i], groups, flags),
    ensures
        forall|i: int|
            0 <= i < pending_from(done, drift, groups, flags, from).0.len() ==> pends_rightly(
                #[trigger] pending_from(done, drift, groups, flags, from).0[i],
                groups,
                flags,
            ),
    decreases groups.len() - from,
{
    if from < groups.len() {
        let item = if flags[from].0 {
            PendingUnit {
                unit: from as usize,
                kind: if groups[from].compound || groups[from].fields.len() > 1 {
                    ConflictKind::AtomicGroup
                } else {
                    ConflictKind::FieldValue
                },
                blocking: true,
            }
        } else {
            PendingUnit {
                unit: from as usize,
                kind: ConflictKind::EncodingDrift,
                blocking: false,
            }
        };
        let more = done.push(item);
        if flags[from].0 || flags[from].1 {
            assert forall|i: int| 0 <= i < more.len() implies pends_rightly(
                #[trigger] more[i],
                groups,
                flags,
            ) by {
                if i < done.len() {
                    assert(more[i] == done[i]);
                }
            }
        }
        let all = pending_from(done, drift, groups, flags, from);
        if flags[from].0 {
            pending_units_are_marked(more, drift, groups, flags, from + 1);
            assert(all == pending_from(more, drift, groups, flags, from + 1));
        } else if flags[from].1 && drift.samples < MAX_ENCODING_DRIFT_SAMPLES_PER_ASSET {
            pending_units_are_marked(more, drifted(drift), groups, flags, from + 1);
            assert(all == pending_from(more, drifted(drift), groups, flags, from + 1));
        } else if flags[from].1 {
            pending_units_are_marked(done, drifted(drift), groups, flags, from + 1);
            assert(all == pending_from(done, drifted(drift), groups, flags, from + 1));
        } else {
            pending_units_are_marked(done, drift, groups, flags, from + 1);
            assert(all == pending_from(done, drift, groups, flags, from + 1));
        }
    }
}

/// A unit that becomes a conflict blocks exactly when it is marked as different in
/// meaning, and else is marked as stored differently.
spec fn pends_rightly(
    item: PendingUnit,
    groups: Seq<AtomicGroupView>,
    flags: Seq<(bool, bool)>,
) -> bool {
    &&& item.unit < groups.len()
    &&& item.blocking == flags[item.unit as int].0
    &&& !item.blocking ==> item.kind == ConflictKind::EncodingDrift && flags[item.unit as int].1
}

/// The findings of a row tell of a difference as a whole.
pub open spec fn tells_of_row(
    conflicts: Seq<ConflictView>,
    opened: Seq<OpenedPakView>,
    parsed: Seq<ParsedDbProviderView>,
    asset_path: Seq<char>,
    row_id: i64,
    group_id: Seq<char>,
) -> bool {
    exists|i: int|
        0 <= i < conflicts.len() && (#[trigger] conflicts[i]).blocking && is_about(
            conflicts[i],
            asset_path,
            row_id,
            group_id,
        ) && offers_each_row(conflicts[i], opened, parsed, row_id)
}

/// The findings of a row tell of a difference in one of its units.
pub open spec fn tells_of_unit(
    conflicts: Seq<ConflictView>,
    opened: Seq<OpenedPakView>,
    parsed: Seq<ParsedDbProviderView>,
    asset_path: Seq<char>,
    row_id: i64,
    group: AtomicGroupView,
) -> bool {
    exists|i: int|
        0 <= i < conflicts.len() && (#[trigger] conflicts[i]).blocking && is_about(
            conflicts[i],
            asset_path,
            row_id,
            group.id,
        ) && offers_each_value(conflicts[i], opened, parsed, row_id, group)
}

/// A row of the base Pak that some provider lays out otherwise is told of as a whole;
/// of every other row each unit is told of by which some provider means something else;
/// and what is offered are the rows, or the values, of all providers.
pub proof fn differences_of_a_row_are_told(
    opened: Seq<OpenedPakView>,
    parsed: Seq<ParsedDbProviderView>,
    carrier: int,
    asset_path: Seq<char>,
    row: DatabaseRow,
    drift: DriftCount,
    units: Vec<RowUnit>,
    unit: int,
)
    requires
        0 <= carrier < parsed.len(),
        row_from(parsed[carrier].asset.rows@, row.id) == Some(row),
        row.units == Ok::<Vec<RowUnit>, String>(units),
        units@.len() <= usize::MAX,
    ensures
        carrier_row_findings(opened, parsed, carrier, asset_path, row, drift) matches Ok(findings)
            ==> {
            let groups = groups_of(units@);
            let told = findings.conflicts;
            &&& some_layout_differs(parsed, carrier, row, groups) ==> tells_of_row(
                told,
                opened,
                parsed,
                asset_path,
                row.id,
                "__whole_row__"@,
            )
            &&& !some_layout_differs(parsed, carrier, row, groups) && 0 <= unit < groups.len() && (
            exists|provider: int| #[trigger]
                means_otherwise(parsed, provider, carrier, row, groups[unit])) ==> tells_of_unit(
                told,
                opened,
                parsed,
                asset_path,
                row.id,
                groups[unit],
            )
        },
{
    if let Ok(findings) = carrier_row_findings(opened, parsed, carrier, asset_path, row, drift) {
        let groups = groups_of(units@);
        let first = all_hashes_from(Seq::empty(), row, groups)->Ok_0;
        mismatches_follow_the_providers(
            RowComparisonView {
                flags: no_flags(groups.len()),
                shape_mismatch: false,
                layout_mismatch: false,
            },
            parsed,
            0,
            carrier,
            row,
            groups,
            first,
        );
        let found = comparison_of(parsed, carrier, row, units@)->Ok_0;
        if some_layout_differs(parsed, carrier, row, groups) {
            let provider = choose|provider: int| #[trigger]
                laid_out_otherwise(parsed, provider, carrier, row, groups);
            assert(0 <= provider && laid_out_otherwise(parsed, provider, carrier, row, groups));
            whole_rows_are_offered(
                opened,
                parsed,
                carrier,
                asset_path,
                row,
                findings.conflicts[0].message,
            );
            assert(is_about(findings.conflicts[0], asset_path, row.id, "__whole_row__"@));
        } else if 0 <= unit < groups.len() && exists|provider: int| #[trigger]
            means_otherwise(parsed, provider, carrier, row, groups[unit]) {
            assert(!found.shape_mismatch && !found.layout_mismatch);
            marked_exactly_where_meanings_differ(parsed, carrier, row, units@, unit);
            let (pending, after) = pending_from(Seq::empty(), drift, groups, found.flags, 0);
            marked_units_become_pending(Seq::empty(), drift, groups, found.flags, 0, unit);
            assert(blocks(pending, unit));
            let i = choose|i: int|
                0 <= i < pending.len() && (#[trigger] pending[i]).blocking && pending[i].unit
                    == unit;
            let table = variant_table(
                opened,
                parsed,
                carrier,
                row,
                pending_groups(groups, pending),
            )->Ok_0;
            unit_values_are_offered(
                opened,
                parsed,
                carrier,
                asset_path,
                row,
                groups,
                pending,
                table,
                i,
            );
            assert(findings.conflicts[i].blocking);
            assert(is_about(findings.conflicts[i], asset_path, row.id, groups[unit].id));
        }
    }
}

/// A conflict tells of something that is so: a row has another layout somewhere, or
/// some provider means something else by a unit, or merely stores it otherwise, and
/// only then nothing needs to be chosen.
pub open spec fn tells_the_truth(
    conflict: ConflictView,
    parsed: Seq<ParsedDbProviderView>,
    carrier: int,
    asset_path: Seq<char>,
    row: DatabaseRow,
    groups: Seq<AtomicGroupView>,
) -> bool {
    ||| conflict.blocking && is_about(conflict, asset_path, row.id, "__whole_row__"@)
        && some_layout_differs(parsed, carrier, row, groups)
    ||| exists|unit: int|
        0 <= unit < groups.len() && is_about(
            conflict,
            asset_path,
            row.id,
            (#[trigger] groups[unit]).id,
        ) && (conflict.blocking <==> exists|provider: int| #[trigger]
            means_otherwise(parsed, provider, carrier, row, groups[unit])) && (
        !conflict.blocking ==> conflict.kind == ConflictKind::EncodingDrift && exists|provider: int|
            #[trigger] stores_otherwise(parsed, provider, carrier, row, groups[unit]))
}

/// Nothing is told of a row that is not so.
pub proof fn what_is_told_of_a_row_is_so(
    opened: Seq<OpenedPakView>,
    parsed: Seq<ParsedDbProviderView>,
    carrier: int,
    asset_path: Seq<char>,
    row: DatabaseRow,
    drift: DriftCount,
    units: Vec<RowUnit>,
    at: int,
)
    requires
        row.units == Ok::<Vec<RowUnit>, String>(units),
        units@.len() <= usize::MAX,
    ensures
        carrier_row_findings(opened, parsed, carrier, asset_path, row, drift) matches Ok(findings)
            ==> (0 <= at < findings.conflicts.len() ==> tells_the_truth(
            findings.conflicts[at],
            parsed,
            carrier,
            asset_path,
            row,
            groups_of(units@),
        )),
{
    if let Ok(findings) = carrier_row_findings(opened, parsed, carrier, asset_path, row, drift) {
        let groups = groups_of(units@);
        let first = all_hashes_from(Seq::empty(), row, groups)->Ok_0;
        mismatches_follow_the_providers(
            RowComparisonView {
                flags: no_flags(groups.len()),
                shape_mismatch: false,
                layout_mismatch: false,
            },
            parsed,
            0,
            carrier,
            row,
            groups,
            first,
        );
        let found = comparison_of(parsed, carrier, row, units@)->Ok_0;
        if 0 <= at < findings.conflicts.len() && !found.shape_mismatch && !found.layout_mismatch {
            let (pending, after) = pending_from(Seq::empty(), drift, groups, found.flags, 0);
            pending_units_are_marked(Seq::empty(), drift, groups, found.flags, 0);
            assert(pends_rightly(pending[at], groups, found.flags));
            let unit = pending[at].unit as int;
            marked_exactly_where_meanings_differ(parsed, carrier, row, units@, unit);
            assert(is_about(findings.conflicts[at], asset_path, row.id, groups[unit].id));
        } else if 0 <= at < findings.conflicts.len() {
            assert(is_about(findings.conflicts[at], asset_path, row.id, "__whole_row__"@));
        }
    }
}

/// Two providers have a row in versions that mean different things.
pub open spec fn rows_disagree(
    parsed: Seq<ParsedDbProviderView>,
    left: int,
    right: int,
    row_id: i64,
) -> bool {
    &&& 0 <= left < right < parsed.len()
    &&& row_from(parsed[left].asset.rows@, row_id) matches Some(one) && row_from(
        parsed[right].asset.rows@,
        row_id,
    ) matches Some(other) && one.semantic_sha256@ != other.semantic_sha256@
}

proof fn differing_rows_disagree(
    parsed: Seq<ParsedDbProviderView>,
    at: int,
    row_id: i64,
    first: Option<Seq<char>>,
    holder: int,
)
    requires
        0 <= at,
        match first {
            Some(known) => 0 <= holder < at && holder < parsed.len() && (row_from(
                parsed[holder].asset.rows@,
                row_id,
            ) matches Some(row) && row.semantic_sha256@ == known) && forall|p: int|
                0 <= p < at && p < parsed.len() ==> (row_from(
                    (#[trigger] parsed[p]).asset.rows@,
                    row_id,
                ) matches Some(row) ==> row.semantic_sha256@ == known),
            None => forall|p: int|
                0 <= p < at && p < parsed.len() ==> row_from(
                    (#[trigger] parsed[p]).asset.rows@,
                    row_id,
                ) is None,
        },
    ensures
        row_differs_from(parsed, at, row_id, first) <==> exists|left: int, right: int| #[trigger]
            rows_disagree(parsed, left, right, row_id),
    decreases parsed.len() - at,
{
    if at < parsed.len() {
        match row_from(parsed[at].asset.rows@, row_id) {
            None => {
                differing_rows_disagree(parsed, at + 1, row_id, first, holder);
            },
            Some(row) => match first {
                None => {
                    differing_rows_disagree(
                        parsed,
                        at + 1,
                        row_id,
                        Some(row.semantic_sha256@),
                        at,
                    );
                },
                Some(known) => {
                    if known != row.semantic_sha256@ {
                        assert(rows_disagree(parsed, holder, at, row_id));
                    } else {
                        differing_rows_disagree(parsed, at + 1, row_id, first, holder);
                    }
                },
            },
        }
    } else {
        if exists|left: int, right: int| #[trigger] rows_disagree(parsed, left, right, row_id) {
            let (left, right) = choose|left: int, right: int| #[trigger]
                rows_disagree(parsed, left, right, row_id);
            assert(row_from(parsed[left].asset.rows@, row_id) is Some);
            assert(row_from(parsed[right].asset.rows@, row_id) is Some);
        }
    }
}

/// A row that the base Pak has not is told of exactly when two providers have it in
/// versions that mean different things; it is then offered as each provider has it.
pub proof fn differences_of_an_added_row_are_told(
    opened: Seq<OpenedPakView>,
    parsed: Seq<ParsedDbProviderView>,
    asset_path: Seq<char>,
    row_id: i64,
)
    ensures
        (exists|left: int, right: int| #[trigger] rows_disagree(parsed, left, right, row_id))
            ==> tells_of_row(
            added_row_findings(opened, parsed, asset_path, row_id),
            opened,
            parsed,
            asset_path,
            row_id,
            "$row"@,
        ),
        !(exists|left: int, right: int| #[trigger] rows_disagree(parsed, left, right, row_id))
            ==> added_row_findings(opened, parsed, asset_path, row_id).len() == 0,
        forall|i: int|
            0 <= i < added_row_findings(opened, parsed, asset_path, row_id).len() ==> (
            #[trigger] added_row_findings(opened, parsed, asset_path, row_id)[i]).blocking
                && is_about(
                added_row_findings(opened, parsed, asset_path, row_id)[i],
                asset_path,
                row_id,
                "$row"@,
            ),
{
    differing_rows_disagree(parsed, 0, row_id, None, 0);
    let told = added_row_findings(opened, parsed, asset_path, row_id);
    if row_differs_from(parsed, 0, row_id, None) {
        let variants = other_row_variants(
            Seq::empty(),
            opened,
            parsed,
            0,
            -1,
            asset_path,
            row_id,
            "$row"@,
        );
        let conflict = told[0];
        assert forall|provider: int| 0 <= provider < parsed.len() implies (row_from(
            (#[trigger] parsed[provider]).asset.rows@,
            row_id,
        ) matches Some(other) ==> offers(
            conflict,
            provider_id(opened, parsed, provider),
            (other.raw_sha256@, other.semantic_sha256@),
        )) by {
            if let Some(other) = row_from(parsed[provider].asset.rows@, row_id) {
                row_variants_hold(
                    Seq::empty(),
                    opened,
                    parsed,
                    0,
                    -1,
                    asset_path,
                    row_id,
                    "$row"@,
                    provider,
                );
                let wanted = row_variant(
                    opened[parsed[provider].input_index as int].descriptor,
                    parsed[provider],
                    asset_path,
                    row_id,
                    "$row"@,
                    other,
                );
                let v = choose|v: int| 0 <= v < variants.len() && variants[v] == wanted;
                ordered_variants_are_offered(
                    ConflictKind::RowIdCollision,
                    asset_path,
                    row_id,
                    "$row"@,
                    conflict.message,
                    variants,
                    true,
                    v,
                );
            }
        }
        assert(is_about(told[0], asset_path, row_id, "$row"@));
    }
}

} // verus!
