//! Comparing one row of a database between its providers.
use vstd::prelude::*;

use super::conflicts::{conflict_of, make_conflict};
use super::database::{
    field_names, indexed_row, node_text, parsed_well, preview_node, row_from, same_field_order,
    same_unit, shortened, AtomicGroup, AtomicGroupView, DatabaseRow, FieldValue, ParsedDbProvider,
    ParsedDbProviderView, RowUnit,
};
use super::error::{seen, MergeError, MergeErrorView, Outcome, Result};
use super::ids::{join, joined, stable_id, stable_id_of};
use super::opened::{OpenedPak, OpenedPakView};
use super::types::{
    Conflict, ConflictKind, ConflictView, InputDescriptor, InputDescriptorView, Provenance,
    ProvenanceView, Variant, VariantView,
};
use crate::lists::{views, views_push, Duplicate};
use crate::text::{
    cat2, cat3, cat4, clone_text, dec, decimal_usize, hex_byte, hex_upper, same_text, signed_dec,
    signed_decimal, texts, texts_push,
};

verus! {

/// How many examples of storage drift one database reports.
pub const MAX_ENCODING_DRIFT_SAMPLES_PER_ASSET: usize = 64;

/// The first unit that is a given one.
pub open spec fn unit_from(units: Seq<RowUnit>, group: AtomicGroupView) -> Option<RowUnit>
    decreases units.len(),
{
    if units.len() == 0 {
        None
    } else if units[0].group@ == group {
        Some(units[0])
    } else {
        unit_from(units.skip(1), group)
    }
}

/// A unit of a row.
pub open spec fn unit_of(row: DatabaseRow, group: AtomicGroupView) -> Outcome<RowUnit> {
    match row.units {
        Err(text) => Err(MergeErrorView::BinaryAsset(text@)),
        Ok(units) => match unit_from(units@, group) {
            Some(unit) => Ok(unit),
            None => Err(MergeErrorView::BinaryAsset("the row has no values for "@ + group.id)),
        },
    }
}

/// The unit of a row that is a given one.
pub fn find_unit<'b>(row: &'b DatabaseRow, group: &AtomicGroup) -> (result: Result<&'b RowUnit>)
    ensures
        match (result, unit_of(*row, group@)) {
            (Ok(unit), Ok(wanted)) => *unit == wanted,
            (Err(error), Err(wanted)) => error@ == wanted,
            _ => false,
        },
{
    match &row.units {
        Err(text) => Err(MergeError::BinaryAsset(text.clone())),
        Ok(units) => {
            let mut at: usize = 0;
            assert(units@.skip(0) =~= units@);
            while at < units.len()
                invariant
                    at <= units@.len(),
                    row.units == Ok::<Vec<RowUnit>, String>(*units),
                    unit_from(units@, group@) == unit_from(units@.skip(at as int), group@),
                decreases units.len() - at,
            {
                proof {
                    assert(units@.skip(at as int)[0] == units@[at as int]);
                    assert(units@.skip(at as int).skip(1) =~= units@.skip(at as int + 1));
                }
                if same_unit(&units[at].group, group) {
                    return Ok(&units[at]);
                }
                at += 1;
            }
            Err(
                MergeError::BinaryAsset(cat2("the row has no values for ", group.id.as_str())),
            )
        },
    }
}

/// The digests of a unit's values in a row: as stored, and by their meaning.
pub open spec fn hashes_of(row: DatabaseRow, group: AtomicGroupView) -> Outcome<
    (Seq<char>, Seq<char>),
> {
    match unit_of(row, group) {
        Err(error) => Err(error),
        Ok(unit) => match unit.hashes {
            Err(text) => Err(MergeErrorView::BinaryAsset(text@)),
            Ok(hashes) => Ok((hashes.raw_sha256@, hashes.semantic_sha256@)),
        },
    }
}

pub open spec fn hash_view(hashes: (String, String)) -> (Seq<char>, Seq<char>) {
    (hashes.0@, hashes.1@)
}

pub open spec fn hash_views(hashes: Seq<(String, String)>) -> Seq<(Seq<char>, Seq<char>)> {
    hashes.map_values(|pair: (String, String)| hash_view(pair))
}

pub fn atomic_group_hashes(row: &DatabaseRow, group: &AtomicGroup) -> (result: Result<(String, String)>)
    ensures
        match (result, hashes_of(*row, group@)) {
            (Ok(found), Ok(wanted)) => hash_view(found) == wanted,
            (Err(error), Err(wanted)) => error@ == wanted,
            _ => false,
        },
{
    let unit = match find_unit(row, group) {
        Ok(unit) => unit,
        Err(error) => {
            return Err(error);
        },
    };
    match &unit.hashes {
        Err(text) => Err(MergeError::BinaryAsset(text.clone())),
        Ok(hashes) => Ok((hashes.raw_sha256.clone(), hashes.semantic_sha256.clone())),
    }
}

/// The units of a row, without their values.
pub open spec fn groups_of(units: Seq<RowUnit>) -> Seq<AtomicGroupView> {
    units.map_values(|unit: RowUnit| unit.group@)
}

/// The digests of the units of a row.
pub open spec fn all_hashes_from(
    done: Seq<(Seq<char>, Seq<char>)>,
    row: DatabaseRow,
    groups: Seq<AtomicGroupView>,
) -> Outcome<Seq<(Seq<char>, Seq<char>)>>
    decreases groups.len(),
{
    if groups.len() == 0 {
        Ok(done)
    } else {
        match hashes_of(row, groups[0]) {
            Err(error) => Err(error),
            Ok(hashes) => all_hashes_from(done.push(hashes), row, groups.skip(1)),
        }
    }
}

#[verifier::loop_isolation(false)]
fn all_hashes(row: &DatabaseRow, units: &Vec<RowUnit>) -> (result: Result<Vec<(String, String)>>)
    ensures
        match (result, all_hashes_from(Seq::empty(), *row, groups_of(units@))) {
            (Ok(found), Ok(wanted)) => hash_views(found@) == wanted && found@.len() == units@.len(),
            (Err(error), Err(wanted)) => error@ == wanted,
            _ => false,
        },
{
    let ghost groups = groups_of(units@);
    let mut found: Vec<(String, String)> = Vec::new();
    let mut at: usize = 0;
    proof {
        assert(groups.skip(0) =~= groups);
        assert(hash_views(found@) =~= Seq::<(Seq<char>, Seq<char>)>::empty());
    }
    while at < units.len()
        invariant
            at <= units@.len(),
            found@.len() == at,
            all_hashes_from(Seq::empty(), *row, groups) == all_hashes_from(
                hash_views(found@),
                *row,
                groups.skip(at as int),
            ),
        decreases units.len() - at,
    {
        proof {
            assert(groups.skip(at as int)[0] == units@[at as int].group@);
            assert(groups.skip(at as int).skip(1) =~= groups.skip(at as int + 1));
        }
        let hashes = match atomic_group_hashes(row, &units[at].group) {
            Ok(hashes) => hashes,
            Err(error) => {
                return Err(error);
            },
        };
        proof {
            assert(hash_views(found@.push(hashes)) =~= hash_views(found@).push(hash_view(hashes)));
        }
        found.push(hashes);
        at += 1;
    }
    Ok(found)
}

/// For each unit whether a donor's values differ in meaning, and in storage,
/// from those of the base Pak, or some earlier donor's did.
pub open spec fn with_donor_from(
    done: Seq<(bool, bool)>,
    flags: Seq<(bool, bool)>,
    first: Seq<(Seq<char>, Seq<char>)>,
    donor: DatabaseRow,
    groups: Seq<AtomicGroupView>,
) -> Outcome<Seq<(bool, bool)>>
    decreases groups.len() - done.len(),
{
    let at = done.len() as int;
    if at >= groups.len() {
        Ok(done)
    } else {
        match hashes_of(donor, groups[at]) {
            Err(error) => Err(error),
            Ok((raw, semantic)) => with_donor_from(
                done.push((flags[at].0 || first[at].1 != semantic, flags[at].1 || first[at].0 != raw)),
                flags,
                first,
                donor,
                groups,
            ),
        }
    }
}

#[verifier::loop_isolation(false)]
fn with_donor(
    flags: &Vec<(bool, bool)>,
    first: &Vec<(String, String)>,
    donor: &DatabaseRow,
    units: &Vec<RowUnit>,
) -> (result: Result<Vec<(bool, bool)>>)
    requires
        flags@.len() == units@.len(),
        first@.len() == units@.len(),
    ensures
        match (
            result,
            with_donor_from(
                Seq::empty(),
                flags@,
                hash_views(first@),
                *donor,
                groups_of(units@),
            ),
        ) {
            (Ok(found), Ok(wanted)) => found@ == wanted && found@.len() == units@.len(),
            (Err(error), Err(wanted)) => error@ == wanted,
            _ => false,
        },
{
    let ghost groups = groups_of(units@);
    let ghost known = hash_views(first@);
    let mut found: Vec<(bool, bool)> = Vec::new();
    while found.len() < units.len()
        invariant
            found@.len() <= units@.len(),
            with_donor_from(Seq::empty(), flags@, known, *donor, groups) == with_donor_from(
                found@,
                flags@,
                known,
                *donor,
                groups,
            ),
        decreases units@.len() - found@.len(),
    {
        let at: usize = found.len();
        proof {
            assert(groups[at as int] == units@[at as int].group@);
            assert(known[at as int] == hash_view(first@[at as int]));
        }
        let hashes = match atomic_group_hashes(donor, &units[at].group) {
            Ok(hashes) => hashes,
            Err(error) => {
                return Err(error);
            },
        };
        let semantic = flags[at].0 || !same_text(first[at].1.as_str(), hashes.1.as_str());
        let raw = flags[at].1 || !same_text(first[at].0.as_str(), hashes.0.as_str());
        found.push((semantic, raw));
    }
    Ok(found)
}

/// What the comparison of a row has found.
#[verifier::ext_equal]
pub struct RowComparisonView {
    /// For each unit: the values differ in meaning; their storage differs.
    pub flags: Seq<(bool, bool)>,
    /// Some donor's row has other fields.
    pub shape_mismatch: bool,
    /// Some donor's row is divided into other units.
    pub layout_mismatch: bool,
}

/// The comparison of the row of the base Pak with those of the other providers.
pub open spec fn compared_from(
    state: RowComparisonView,
    parsed: Seq<ParsedDbProviderView>,
    at: int,
    carrier: int,
    row: DatabaseRow,
    groups: Seq<AtomicGroupView>,
    first: Seq<(Seq<char>, Seq<char>)>,
) -> Outcome<RowComparisonView>
    decreases parsed.len() - at,
{
    if at >= parsed.len() {
        Ok(state)
    } else {
        let donor = row_from(parsed[at].asset.rows@, row.id);
        if at == carrier || donor is None {
            compared_from(state, parsed, at + 1, carrier, row, groups, first)
        } else if field_names(donor->0) != field_names(row) {
            compared_from(
                RowComparisonView { shape_mismatch: true, ..state },
                parsed,
                at + 1,
                carrier,
                row,
                groups,
                first,
            )
        } else {
            match donor->0.units {
                Err(text) => Err(MergeErrorView::BinaryAsset(text@)),
                Ok(units) => if groups_of(units@) != groups {
                    compared_from(
                        RowComparisonView { layout_mismatch: true, ..state },
                        parsed,
                        at + 1,
                        carrier,
                        row,
                        groups,
                        first,
                    )
                } else {
                    match with_donor_from(Seq::empty(), state.flags, first, donor->0, groups) {
                        Err(error) => Err(error),
                        Ok(flags) => compared_from(
                            RowComparisonView { flags, ..state },
                            parsed,
                            at + 1,
                            carrier,
                            row,
                            groups,
                            first,
                        ),
                    }
                },
            }
        }
    }
}

/// Whether two lists of units are the same.
fn same_groups(left: &Vec<RowUnit>, right: &Vec<RowUnit>) -> (result: bool)
    ensures
        result == (groups_of(left@) == groups_of(right@)),
{
    if left.len() != right.len() {
        assert(groups_of(left@).len() != groups_of(right@).len());
        return false;
    }
    let mut at: usize = 0;
    while at < left.len()
        invariant
            at <= left@.len() == right@.len(),
            forall|i: int| 0 <= i < at ==> groups_of(left@)[i] == groups_of(right@)[i],
        decreases left.len() - at,
    {
        if !same_unit(&left[at].group, &right[at].group) {
            assert(groups_of(left@)[at as int] != groups_of(right@)[at as int]);
            return false;
        }
        at += 1;
    }
    assert(groups_of(left@) =~= groups_of(right@));
    true
}

/// No unit differs.
pub open spec fn no_flags(count: nat) -> Seq<(bool, bool)> {
    Seq::new(count, |i: int| (false, false))
}

fn clear_flags(count: usize) -> (result: Vec<(bool, bool)>)
    ensures
        result@ == no_flags(count as nat),
{
    let mut result: Vec<(bool, bool)> = Vec::new();
    while result.len() < count
        invariant
            result@.len() <= count,
            result@ == no_flags(result@.len()),
        decreases count - result@.len(),
    {
        let ghost before = result@;
        result.push((false, false));
        assert(result@ =~= no_flags(before.len() + 1));
    }
    result
}

/// What the comparison of a row has found.
pub struct RowComparison {
    pub flags: Vec<(bool, bool)>,
    pub shape_mismatch: bool,
    pub layout_mismatch: bool,
}

impl View for RowComparison {
    type V = RowComparisonView;

    open spec fn view(&self) -> RowComparisonView {
        RowComparisonView {
            flags: self.flags@,
            shape_mismatch: self.shape_mismatch,
            layout_mismatch: self.layout_mismatch,
        }
    }
}

/// The comparison of the row of the base Pak with all others.
pub open spec fn comparison_of(
    parsed: Seq<ParsedDbProviderView>,
    carrier: int,
    row: DatabaseRow,
    units: Seq<RowUnit>,
) -> Outcome<RowComparisonView> {
    let groups = groups_of(units);
    match all_hashes_from(Seq::empty(), row, groups) {
        Err(error) => Err(error),
        Ok(first) => compared_from(
            RowComparisonView {
                flags: no_flags(groups.len()),
                shape_mismatch: false,
                layout_mismatch: false,
            },
            parsed,
            0,
            carrier,
            row,
            groups,
            first,
        ),
    }
}

#[verifier::loop_isolation(false)]
fn compare_with_donors(
    parsed: &Vec<ParsedDbProvider>,
    carrier_local: usize,
    row: &DatabaseRow,
    units: &Vec<RowUnit>,
) -> (result: Result<RowComparison>)
    ensures
        seen(result) == comparison_of(views(parsed@), carrier_local as int, *row, units@),
        result matches Ok(found) ==> found.flags@.len() == units@.len(),
{
    let first = match all_hashes(row, units) {
        Ok(first) => first,
        Err(error) => {
            return Err(error);
        },
    };
    let ghost all = views(parsed@);
    let ghost groups = groups_of(units@);
    let ghost known = hash_views(first@);
    let mut state = RowComparison {
        flags: clear_flags(units.len()),
        shape_mismatch: false,
        layout_mismatch: false,
    };
    let mut at: usize = 0;
    while at < parsed.len()
        invariant
            at <= parsed@.len(),
            state.flags@.len() == units@.len(),
            comparison_of(all, carrier_local as int, *row, units@) == compared_from(
                state@,
                all,
                at as int,
                carrier_local as int,
                *row,
                groups,
                known,
            ),
        decreases parsed.len() - at,
    {
        assert(all[at as int] == parsed@[at as int]@);
        if at != carrier_local {
            match indexed_row(&parsed[at].asset, row.id) {
                None => {},
                Some(donor) => {
                    if !same_field_order(donor, row) {
                        state = RowComparison {
                            flags: state.flags,
                            shape_mismatch: true,
                            layout_mismatch: state.layout_mismatch,
                        };
                    } else {
                        match &donor.units {
                            Err(text) => {
                                return Err(MergeError::BinaryAsset(text.clone()));
                            },
                            Ok(donor_units) => {
                                if !same_groups(donor_units, units) {
                                    state = RowComparison {
                                        flags: state.flags,
                                        shape_mismatch: state.shape_mismatch,
                                        layout_mismatch: true,
                                    };
                                } else {
                                    let flags = match with_donor(
                                        &state.flags,
                                        &first,
                                        donor,
                                        units,
                                    ) {
                                        Ok(flags) => flags,
                                        Err(error) => {
                                            return Err(error);
                                        },
                                    };
                                    state = RowComparison {
                                        flags,
                                        shape_mismatch: state.shape_mismatch,
                                        layout_mismatch: state.layout_mismatch,
                                    };
                                }
                            },
                        }
                    }
                },
            }
        }
        at += 1;
    }
    Ok(state)
}

/// The identifying parts of a variant of a row.
pub open spec fn row_variant_id(
    path: Seq<char>,
    row_id: i64,
    group_id: Seq<char>,
    input_id: Seq<char>,
    raw_sha256: Seq<char>,
) -> Seq<char> {
    stable_id_of(
        "variant"@,
        seq![path, signed_dec(row_id as int), group_id, input_id, raw_sha256],
    )
}

fn make_row_variant_id(
    path: &str,
    row_id: i64,
    group_id: &str,
    input_id: &str,
    raw_sha256: &str,
) -> (result: String)
    ensures
        result@ == row_variant_id(path@, row_id, group_id@, input_id@, raw_sha256@),
{
    let mut parts: Vec<String> = Vec::new();
    parts.push(path.to_owned());
    parts.push(signed_decimal(row_id));
    parts.push(group_id.to_owned());
    parts.push(input_id.to_owned());
    parts.push(raw_sha256.to_owned());
    assert(texts(parts@) =~= seq![
        path@,
        signed_dec(row_id as int),
        group_id@,
        input_id@,
        raw_sha256@,
    ]);
    stable_id("variant", &parts)
}

/// A variant that stands for a whole row of one input.
pub open spec fn row_variant(
    input: InputDescriptorView,
    provider: ParsedDbProviderView,
    asset_path: Seq<char>,
    row_id: i64,
    group_id: Seq<char>,
    row: DatabaseRow,
) -> VariantView {
    VariantView {
        id: row_variant_id(asset_path, row_id, group_id, input.id, row.raw_sha256@),
        label: input.display_name,
        input_id: input.id,
        raw_sha256: row.raw_sha256@,
        semantic_sha256: row.semantic_sha256@,
        preview: "row "@ + signed_dec(row_id as int) + ", "@ + dec(row.fields@.len())
            + " fields"@,
        marker: "row-map:0x"@ + hex_upper(row.marker),
        provenance: ProvenanceView {
            input_id: input.id,
            input_path: input.path,
            entry_path: provider.group.components.uexp,
            raw_sha256: row.raw_sha256@,
        },
    }
}

pub fn make_row_variant(
    input: &InputDescriptor,
    provider: &ParsedDbProvider,
    asset_path: &str,
    row_id: i64,
    group_id: &str,
    row: &DatabaseRow,
) -> (result: Variant)
    ensures
        result@ == row_variant(input@, provider@, asset_path@, row_id, group_id@, *row),
{
    Variant {
        id: make_row_variant_id(
            asset_path,
            row_id,
            group_id,
            input.id.as_str(),
            row.raw_sha256.as_str(),
        ),
        label: input.display_name.clone(),
        input_id: input.id.clone(),
        raw_sha256: row.raw_sha256.clone(),
        semantic_sha256: row.semantic_sha256.clone(),
        preview: crate::text::cat5(
            "row ",
            signed_decimal(row_id).as_str(),
            ", ",
            decimal_usize(row.fields.len()).as_str(),
            " fields",
        ),
        marker: cat2("row-map:0x", hex_byte(row.marker).as_str()),
        provenance: Provenance {
            input_id: input.id.clone(),
            input_path: input.path.clone(),
            entry_path: clone_text(&provider.group.components.uexp),
            raw_sha256: row.raw_sha256.clone(),
        },
    }
}

/// The variants of the row in the providers from `at` on, but for the base Pak.
pub open spec fn other_row_variants(
    done: Seq<VariantView>,
    opened: Seq<OpenedPakView>,
    parsed: Seq<ParsedDbProviderView>,
    at: int,
    except: int,
    asset_path: Seq<char>,
    row_id: i64,
    group_id: Seq<char>,
) -> Seq<VariantView>
    decreases parsed.len() - at,
{
    if at >= parsed.len() {
        done
    } else {
        let next = if at == except {
            done
        } else {
            match row_from(parsed[at].asset.rows@, row_id) {
                None => done,
                Some(row) => done.push(
                    row_variant(
                        opened[parsed[at].input_index as int].descriptor,
                        parsed[at],
                        asset_path,
                        row_id,
                        group_id,
                        row,
                    ),
                ),
            }
        };
        other_row_variants(next, opened, parsed, at + 1, except, asset_path, row_id, group_id)
    }
}

fn push_row_variants(
    variants: &mut Vec<Variant>,
    opened: &Vec<OpenedPak>,
    parsed: &Vec<ParsedDbProvider>,
    except: Option<usize>,
    asset_path: &str,
    row_id: i64,
    group_id: &str,
)
    requires
        parsed_well(parsed@, opened@.len()),
    ensures
        views(final(variants)@) == other_row_variants(
            views(old(variants)@),
            views(opened@),
            views(parsed@),
            0,
            (match except {
                Some(at) => at as int,
                None => -1,
            }),
            asset_path@,
            row_id,
            group_id@,
        ),
{
    let ghost all = views(parsed@);
    let ghost inputs = views(opened@);
    let ghost start = views(variants@);
    let ghost skipped = match except {
        Some(at) => at as int,
        None => -1,
    };
    let mut at: usize = 0;
    while at < parsed.len()
        invariant
            at <= parsed@.len(),
            all == views(parsed@),
            inputs == views(opened@),
            parsed_well(parsed@, opened@.len()),
            skipped == (match except {
                Some(at) => at as int,
                None => -1,
            }),
            other_row_variants(start, inputs, all, 0, skipped, asset_path@, row_id, group_id@)
                == other_row_variants(
                views(variants@),
                inputs,
                all,
                at as int,
                skipped,
                asset_path@,
                row_id,
                group_id@,
            ),
        decreases parsed.len() - at,
    {
        let provider = &parsed[at];
        proof {
            assert(all[at as int] == provider@);
            assert(inputs[provider.input_index as int] == opened@[provider.input_index as int]@);
        }
        let skip = match except {
            Some(other) => other == at,
            None => false,
        };
        if !skip {
            match indexed_row(&provider.asset, row_id) {
                None => {},
                Some(row) => {
                    let variant = make_row_variant(
                        &opened[provider.input_index].descriptor,
                        provider,
                        asset_path,
                        row_id,
                        group_id,
                        row,
                    );
                    proof {
                        views_push(variants@, variant);
                    }
                    variants.push(variant);
                },
            }
        }
        at += 1;
    }
}

/// The variants of a whole row: the base Pak's first.
pub open spec fn whole_row_variants(
    opened: Seq<OpenedPakView>,
    parsed: Seq<ParsedDbProviderView>,
    carrier: int,
    asset_path: Seq<char>,
    row: DatabaseRow,
) -> Seq<VariantView> {
    other_row_variants(
        seq![
            row_variant(
                opened[parsed[carrier].input_index as int].descriptor,
                parsed[carrier],
                asset_path,
                row.id,
                "__whole_row__"@,
                row,
            ),
        ],
        opened,
        parsed,
        0,
        carrier,
        asset_path,
        row.id,
        "__whole_row__"@,
    )
}

pub fn make_whole_row_variants(
    opened: &Vec<OpenedPak>,
    parsed: &Vec<ParsedDbProvider>,
    carrier_local: usize,
    asset_path: &str,
    row: &DatabaseRow,
) -> (result: Vec<Variant>)
    requires
        parsed_well(parsed@, opened@.len()),
        carrier_local < parsed@.len(),
    ensures
        views(result@) == whole_row_variants(
            views(opened@),
            views(parsed@),
            carrier_local as int,
            asset_path@,
            *row,
        ),
{
    let mut variants: Vec<Variant> = Vec::new();
    let carrier = &parsed[carrier_local];
    proof {
        assert(views(parsed@)[carrier_local as int] == carrier@);
        assert(views(opened@)[carrier.input_index as int] == opened@[carrier.input_index as int]@);
    }
    let first = make_row_variant(
        &opened[carrier.input_index].descriptor,
        carrier,
        asset_path,
        row.id,
        "__whole_row__",
        row,
    );
    proof {
        views_push(variants@, first);
        assert(views(variants@).push(first@) =~= seq![first@]);
    }
    variants.push(first);
    push_row_variants(
        &mut variants,
        opened,
        parsed,
        Some(carrier_local),
        asset_path,
        row.id,
        "__whole_row__",
    );
    variants
}

/// The value of the field at `at`, where the reader could give it.
pub open spec fn value_at(unit: RowUnit, at: int) -> Option<FieldValue> {
    if 0 <= at < unit.values@.len() {
        match unit.values@[at] {
            Ok(value) => Some(value),
            Err(_) => None,
        }
    } else {
        None
    }
}

/// How the values of a unit are stored.
pub open spec fn markers_of(unit: RowUnit, count: int) -> Seq<Seq<char>>
    decreases count,
{
    if count <= 0 {
        Seq::empty()
    } else {
        match value_at(unit, count - 1) {
            None => markers_of(unit, count - 1),
            Some(value) => markers_of(unit, count - 1).push(
                value.node.encoding@ + ":0x"@ + hex_upper(value.node.marker),
            ),
        }
    }
}

/// The name of a field of a unit; an element's place follows in brackets.
pub open spec fn field_label(field: Seq<char>, array_index: Option<usize>) -> Seq<char> {
    match array_index {
        Some(at) => field + "["@ + dec(at as nat) + "]"@,
        None => field,
    }
}

/// What is shown of the values of a unit.
pub open spec fn previews_of(unit: RowUnit, count: int) -> Seq<Seq<char>>
    decreases count,
{
    if count <= 0 {
        Seq::empty()
    } else {
        match value_at(unit, count - 1) {
            None => previews_of(unit, count - 1),
            Some(value) => previews_of(unit, count - 1).push(
                field_label(unit.group.fields@[count - 1]@, unit.group.array_index) + "="@
                    + shortened(node_text(value.node)),
            ),
        }
    }
}

fn list_markers(unit: &RowUnit) -> (result: Vec<String>)
    ensures
        texts(result@) == markers_of(*unit, unit.group.fields@.len() as int),
{
    let mut result: Vec<String> = Vec::new();
    let mut at: usize = 0;
    assert(texts(result@) =~= markers_of(*unit, 0));
    while at < unit.group.fields.len()
        invariant
            at <= unit.group.fields@.len(),
            texts(result@) == markers_of(*unit, at as int),
        decreases unit.group.fields.len() - at,
    {
        if at < unit.values.len() {
            match &unit.values[at] {
                Ok(value) => {
                    let marker = cat3(
                        value.node.encoding.as_str(),
                        ":0x",
                        hex_byte(value.node.marker).as_str(),
                    );
                    proof {
                        texts_push(result@, marker);
                    }
                    result.push(marker);
                },
                Err(_) => {},
            }
        }
        at += 1;
    }
    result
}

fn label_of(field: &str, array_index: Option<usize>) -> (result: String)
    ensures
        result@ == field_label(field@, array_index),
{
    match array_index {
        Some(at) => cat4(field, "[", decimal_usize(at).as_str(), "]"),
        None => field.to_owned(),
    }
}

fn list_previews(unit: &RowUnit) -> (result: Vec<String>)
    ensures
        texts(result@) == previews_of(*unit, unit.group.fields@.len() as int),
{
    let mut result: Vec<String> = Vec::new();
    let mut at: usize = 0;
    assert(texts(result@) =~= previews_of(*unit, 0));
    while at < unit.group.fields.len()
        invariant
            at <= unit.group.fields@.len(),
            texts(result@) == previews_of(*unit, at as int),
        decreases unit.group.fields.len() - at,
    {
        if at < unit.values.len() {
            match &unit.values[at] {
                Ok(value) => {
                    let preview = cat3(
                        label_of(
                            unit.group.fields[at].as_str(),
                            unit.group.array_index,
                        ).as_str(),
                        "=",
                        preview_node(&value.node).as_str(),
                    );
                    proof {
                        texts_push(result@, preview);
                    }
                    result.push(preview);
                },
                Err(_) => {},
            }
        }
        at += 1;
    }
    result
}

/// A variant that stands for a unit of a row of one input.
pub open spec fn unit_variant(
    input: InputDescriptorView,
    provider: ParsedDbProviderView,
    row_id: i64,
    unit: RowUnit,
    hashes: (Seq<char>, Seq<char>),
) -> VariantView {
    VariantView {
        id: row_variant_id(
            provider.group.base_path,
            row_id,
            unit.group.id@,
            input.id,
            hashes.0,
        ),
        label: input.display_name,
        input_id: input.id,
        raw_sha256: hashes.0,
        semantic_sha256: hashes.1,
        preview: joined(previews_of(unit, unit.group.fields@.len() as int), "; "@),
        marker: joined(markers_of(unit, unit.group.fields@.len() as int), ", "@),
        provenance: ProvenanceView {
            input_id: input.id,
            input_path: input.path,
            entry_path: provider.group.components.uexp,
            raw_sha256: hashes.0,
        },
    }
}

pub fn make_atomic_variant(
    input: &InputDescriptor,
    provider: &ParsedDbProvider,
    row_id: i64,
    unit: &RowUnit,
    raw_sha256: &str,
    semantic_sha256: &str,
) -> (result: Variant)
    ensures
        result@ == unit_variant(
            input@,
            provider@,
            row_id,
            *unit,
            (raw_sha256@, semantic_sha256@),
        ),
{
    Variant {
        id: make_row_variant_id(
            provider.group.base_path.as_str(),
            row_id,
            unit.group.id.as_str(),
            input.id.as_str(),
            raw_sha256,
        ),
        label: input.display_name.clone(),
        input_id: input.id.clone(),
        raw_sha256: raw_sha256.to_owned(),
        semantic_sha256: semantic_sha256.to_owned(),
        preview: join(&list_previews(unit), "; "),
        marker: join(&list_markers(unit), ", "),
        provenance: Provenance {
            input_id: input.id.clone(),
            input_path: input.path.clone(),
            entry_path: clone_text(&provider.group.components.uexp),
            raw_sha256: raw_sha256.to_owned(),
        },
    }
}

/// One provider's variants of some units of a row.
pub open spec fn provider_variants_from(
    done: Seq<VariantView>,
    input: InputDescriptorView,
    provider: ParsedDbProviderView,
    row: DatabaseRow,
    groups: Seq<AtomicGroupView>,
) -> Outcome<Seq<VariantView>>
    decreases groups.len(),
{
    if groups.len() == 0 {
        Ok(done)
    } else {
        match hashes_of(row, groups[0]) {
            Err(error) => Err(error),
            Ok(hashes) => provider_variants_from(
                done.push(
                    unit_variant(
                        input,
                        provider,
                        row.id,
                        unit_of(row, groups[0])->Ok_0,
                        hashes,
                    ),
                ),
                input,
                provider,
                row,
                groups.skip(1),
            ),
        }
    }
}

#[verifier::loop_isolation(false)]
fn provider_variants(
    input: &InputDescriptor,
    provider: &ParsedDbProvider,
    row: &DatabaseRow,
    groups: &Vec<&AtomicGroup>,
) -> (result: Result<Vec<Variant>>)
    ensures
        match (
            result,
            provider_variants_from(
                Seq::empty(),
                input@,
                provider@,
                *row,
                groups@.map_values(|group: &AtomicGroup| group@),
            ),
        ) {
            (Ok(found), Ok(wanted)) => views(found@) == wanted && found@.len() == groups@.len(),
            (Err(error), Err(wanted)) => error@ == wanted,
            _ => false,
        },
{
    let ghost all = groups@.map_values(|group: &AtomicGroup| group@);
    let mut found: Vec<Variant> = Vec::new();
    let mut at: usize = 0;
    proof {
        assert(all.skip(0) =~= all);
        assert(views(found@) =~= Seq::<VariantView>::empty());
    }
    while at < groups.len()
        invariant
            at <= groups@.len(),
            found@.len() == at,
            provider_variants_from(Seq::empty(), input@, provider@, *row, all)
                == provider_variants_from(
                views(found@),
                input@,
                provider@,
                *row,
                all.skip(at as int),
            ),
        decreases groups.len() - at,
    {
        proof {
            assert(all.skip(at as int)[0] == groups@[at as int]@);
            assert(all.skip(at as int).skip(1) =~= all.skip(at as int + 1));
        }
        let hashes = match atomic_group_hashes(row, groups[at]) {
            Ok(hashes) => hashes,
            Err(error) => {
                return Err(error);
            },
        };
        let unit = match find_unit(row, groups[at]) {
            Ok(unit) => unit,
            Err(error) => {
                return Err(error);
            },
        };
        let variant = make_atomic_variant(
            input,
            provider,
            row.id,
            unit,
            hashes.0.as_str(),
            hashes.1.as_str(),
        );
        proof {
            views_push(found@, variant);
        }
        found.push(variant);
        at += 1;
    }
    Ok(found)
}

pub open spec fn variant_rows(rows: Seq<Vec<Variant>>) -> Seq<Seq<VariantView>> {
    rows.map_values(|row: Vec<Variant>| views(row@))
}

/// The variants of some units of a row in the providers from `at` on, but for
/// the base Pak: one list for each provider that has the row.
pub open spec fn variant_table_from(
    done: Seq<Seq<VariantView>>,
    opened: Seq<OpenedPakView>,
    parsed: Seq<ParsedDbProviderView>,
    at: int,
    carrier: int,
    row_id: i64,
    groups: Seq<AtomicGroupView>,
) -> Outcome<Seq<Seq<VariantView>>>
    decreases parsed.len() - at,
{
    if at >= parsed.len() {
        Ok(done)
    } else {
        let row = row_from(parsed[at].asset.rows@, row_id);
        if at == carrier || row is None {
            variant_table_from(done, opened, parsed, at + 1, carrier, row_id, groups)
        } else {
            match provider_variants_from(
                Seq::empty(),
                opened[parsed[at].input_index as int].descriptor,
                parsed[at],
                row->0,
                groups,
            ) {
                Err(error) => Err(error),
                Ok(variants) => variant_table_from(
                    done.push(variants),
                    opened,
                    parsed,
                    at + 1,
                    carrier,
                    row_id,
                    groups,
                ),
            }
        }
    }
}

/// The variants of some units of a row: the base Pak's first, then the other
/// providers' in the order of the inputs.
pub open spec fn variant_table(
    opened: Seq<OpenedPakView>,
    parsed: Seq<ParsedDbProviderView>,
    carrier: int,
    row: DatabaseRow,
    groups: Seq<AtomicGroupView>,
) -> Outcome<Seq<Seq<VariantView>>> {
    match provider_variants_from(
        Seq::empty(),
        opened[parsed[carrier].input_index as int].descriptor,
        parsed[carrier],
        row,
        groups,
    ) {
        Err(error) => Err(error),
        Ok(first) => variant_table_from(
            seq![first],
            opened,
            parsed,
            0,
            carrier,
            row.id,
            groups,
        ),
    }
}

/// Every list of the table has one variant for each unit.
pub open spec fn table_width(rows: Seq<Vec<Variant>>, width: nat) -> bool {
    forall|i: int| 0 <= i < rows.len() ==> (#[trigger] rows[i])@.len() == width
}

#[verifier::loop_isolation(false)]
pub fn make_atomic_variant_sets(
    opened: &Vec<OpenedPak>,
    parsed: &Vec<ParsedDbProvider>,
    carrier_local: usize,
    row: &DatabaseRow,
    groups: &Vec<&AtomicGroup>,
) -> (result: Result<Vec<Vec<Variant>>>)
    requires
        parsed_well(parsed@, opened@.len()),
        carrier_local < parsed@.len(),
    ensures
        match (
            result,
            variant_table(
                views(opened@),
                views(parsed@),
                carrier_local as int,
                *row,
                groups@.map_values(|group: &AtomicGroup| group@),
            ),
        ) {
            (Ok(found), Ok(wanted)) => variant_rows(found@) == wanted && table_width(
                found@,
                groups@.len(),
            ),
            (Err(error), Err(wanted)) => error@ == wanted,
            _ => false,
        },
{
    let ghost all = views(parsed@);
    let ghost inputs = views(opened@);
    let ghost wanted_groups = groups@.map_values(|group: &AtomicGroup| group@);
    let carrier = &parsed[carrier_local];
    proof {
        assert(all[carrier_local as int] == carrier@);
        assert(inputs[carrier.input_index as int] == opened@[carrier.input_index as int]@);
    }
    let first = match provider_variants(
        &opened[carrier.input_index].descriptor,
        carrier,
        row,
        groups,
    ) {
        Ok(first) => first,
        Err(error) => {
            return Err(error);
        },
    };
    let ghost start = seq![views(first@)];
    let mut table: Vec<Vec<Variant>> = Vec::new();
    table.push(first);
    let mut at: usize = 0;
    assert(variant_rows(table@) =~= start);
    while at < parsed.len()
        invariant
            at <= parsed@.len(),
            table_width(table@, groups@.len()),
            variant_table_from(
                start,
                inputs,
                all,
                0,
                carrier_local as int,
                row.id,
                wanted_groups,
            ) == variant_table_from(
                variant_rows(table@),
                inputs,
                all,
                at as int,
                carrier_local as int,
                row.id,
                wanted_groups,
            ),
        decreases parsed.len() - at,
    {
        let provider = &parsed[at];
        proof {
            assert(all[at as int] == provider@);
            assert(inputs[provider.input_index as int] == opened@[provider.input_index as int]@);
        }
        if at != carrier_local {
            match indexed_row(&provider.asset, row.id) {
                None => {},
                Some(donor) => {
                    let variants = match provider_variants(
                        &opened[provider.input_index].descriptor,
                        provider,
                        donor,
                        groups,
                    ) {
                        Ok(variants) => variants,
                        Err(error) => {
                            return Err(error);
                        },
                    };
                    proof {
                        assert(variant_rows(table@.push(variants)) =~= variant_rows(table@).push(
                            views(variants@),
                        ));
                    }
                    table.push(variants);
                },
            }
        }
        at += 1;
    }
    Ok(table)
}

/// The variants of one unit, over all providers.
pub open spec fn column(table: Seq<Seq<VariantView>>, at: int) -> Seq<VariantView> {
    table.map_values(|row: Seq<VariantView>| row[at])
}

fn take_column(table: &Vec<Vec<Variant>>, at: usize) -> (result: Vec<Variant>)
    requires
        forall|i: int| 0 <= i < table@.len() ==> at < (#[trigger] table@[i])@.len(),
    ensures
        views(result@) == column(variant_rows(table@), at as int),
{
    let ghost all = column(variant_rows(table@), at as int);
    let mut result: Vec<Variant> = Vec::new();
    let mut row: usize = 0;
    while row < table.len()
        invariant
            row <= table@.len(),
            all == column(variant_rows(table@), at as int),
            forall|i: int| 0 <= i < table@.len() ==> at < (#[trigger] table@[i])@.len(),
            views(result@) == all.take(row as int),
        decreases table.len() - row,
    {
        assert(at < table@[row as int]@.len());
        let variant = table[row][at].copy();
        proof {
            views_push(result@, variant);
            assert(variant_rows(table@)[row as int] == views(table@[row as int]@));
            assert(all[row as int] == variant@);
            assert(all.take(row as int + 1) =~= all.take(row as int).push(variant@));
        }
        result.push(variant);
        row += 1;
    }
    assert(all.take(row as int) =~= all);
    result
}

/// How much storage drift a database has shown, and how many examples of it
/// were kept.
#[derive(Debug, Clone, Copy, PartialEq, Eq, Structural)]
pub struct DriftCount {
    pub count: u64,
    pub samples: usize,
}

/// The drift once one more unit showed it.
pub open spec fn drifted(drift: DriftCount) -> DriftCount {
    DriftCount {
        count: if drift.count == u64::MAX {
            u64::MAX
        } else {
            (drift.count + 1) as u64
        },
        samples: if drift.samples < MAX_ENCODING_DRIFT_SAMPLES_PER_ASSET {
            (drift.samples + 1) as usize
        } else {
            drift.samples
        },
    }
}

/// A unit that becomes a conflict.
#[derive(Debug, Clone, Copy, PartialEq, Eq, Structural)]
pub struct PendingUnit {
    pub unit: usize,
    pub kind: ConflictKind,
    pub blocking: bool,
}

/// The units that become conflicts: those that differ in meaning, and of those
/// that differ in storage alone as many as examples are kept.
pub open spec fn pending_from(
    done: Seq<PendingUnit>,
    drift: DriftCount,
    groups: Seq<AtomicGroupView>,
    flags: Seq<(bool, bool)>,
    at: int,
) -> (Seq<PendingUnit>, DriftCount)
    decreases groups.len() - at,
{
    if at >= groups.len() {
        (done, drift)
    } else if flags[at].0 {
        pending_from(
            done.push(
                PendingUnit {
                    unit: at as usize,
                    kind: if groups[at].compound || groups[at].fields.len() > 1 {
                        ConflictKind::AtomicGroup
                    } else {
                        ConflictKind::FieldValue
                    },
                    blocking: true,
                },
            ),
            drift,
            groups,
            flags,
            at + 1,
        )
    } else if flags[at].1 {
        pending_from(
            if drift.samples < MAX_ENCODING_DRIFT_SAMPLES_PER_ASSET {
                done.push(
                    PendingUnit {
                        unit: at as usize,
                        kind: ConflictKind::EncodingDrift,
                        blocking: false,
                    },
                )
            } else {
                done
            },
            drifted(drift),
            groups,
            flags,
            at + 1,
        )
    } else {
        pending_from(done, drift, groups, flags, at + 1)
    }
}

fn find_pending(drift: DriftCount, units: &Vec<RowUnit>, flags: &Vec<(bool, bool)>) -> (result: (
    Vec<PendingUnit>,
    DriftCount,
))
    requires
        flags@.len() == units@.len(),
    ensures
        (result.0@, result.1) == pending_from(Seq::empty(), drift, groups_of(units@), flags@, 0),
        forall|i: int| 0 <= i < result.0@.len() ==> (#[trigger] result.0@[i]).unit < units@.len(),
{
    let ghost groups = groups_of(units@);
    let mut pending: Vec<PendingUnit> = Vec::new();
    let mut state: DriftCount = drift;
    let mut at: usize = 0;
    while at < units.len()
        invariant
            at <= units@.len() == flags@.len(),
            groups == groups_of(units@),
            forall|i: int| 0 <= i < pending@.len() ==> (#[trigger] pending@[i]).unit < units@.len(),
            pending_from(Seq::empty(), drift, groups, flags@, 0) == pending_from(
                pending@,
                state,
                groups,
                flags@,
                at as int,
            ),
        decreases units.len() - at,
    {
        let group = &units[at].group;
        assert(groups[at as int] == group@);
        if flags[at].0 {
            let kind = if group.compound || group.fields.len() > 1 {
                ConflictKind::AtomicGroup
            } else {
                ConflictKind::FieldValue
            };
            pending.push(PendingUnit { unit: at, kind, blocking: true });
        } else if flags[at].1 {
            let mut samples: usize = state.samples;
            if samples < MAX_ENCODING_DRIFT_SAMPLES_PER_ASSET {
                pending.push(
                    PendingUnit { unit: at, kind: ConflictKind::EncodingDrift, blocking: false },
                );
                samples += 1;
            }
            let count: u64 = if state.count == u64::MAX {
                u64::MAX
            } else {
                state.count + 1
            };
            state = DriftCount { count, samples };
        }
        at += 1;
    }
    (pending, state)
}

/// The sentence of a unit's conflict.
pub open spec fn pending_message(pending: PendingUnit) -> Seq<char> {
    if pending.blocking {
        "The saved values differ. Choose which Pak to use."@
    } else {
        "The value is the same, but its storage format differs. The base Pak format will be kept."@
    }
}

/// The conflicts of the pending units.
pub open spec fn pending_conflicts(
    asset_path: Seq<char>,
    row_id: i64,
    groups: Seq<AtomicGroupView>,
    pending: Seq<PendingUnit>,
    table: Seq<Seq<VariantView>>,
) -> Seq<ConflictView> {
    Seq::new(
        pending.len(),
        |i: int|
            conflict_of(
                pending[i].kind,
                asset_path,
                Some(row_id),
                Some(groups[pending[i].unit as int].id),
                pending_message(pending[i]),
                column(table, i),
                pending[i].blocking,
            ),
    )
}

pub open spec fn pending_groups(groups: Seq<AtomicGroupView>, pending: Seq<PendingUnit>) -> Seq<
    AtomicGroupView,
> {
    pending.map_values(|item: PendingUnit| groups[item.unit as int])
}

/// What a row adds to an analysis.
#[verifier::ext_equal]
pub struct RowFindingsView {
    pub conflicts: Seq<ConflictView>,
    pub drift: DriftCount,
}

/// What the units of a row add whose layout is the same everywhere.
pub open spec fn unit_findings(
    opened: Seq<OpenedPakView>,
    parsed: Seq<ParsedDbProviderView>,
    carrier: int,
    asset_path: Seq<char>,
    row: DatabaseRow,
    drift: DriftCount,
    groups: Seq<AtomicGroupView>,
    flags: Seq<(bool, bool)>,
) -> Outcome<RowFindingsView> {
    let (pending, after) = pending_from(Seq::empty(), drift, groups, flags, 0);
    if pending.len() == 0 {
        Ok(RowFindingsView { conflicts: Seq::empty(), drift: after })
    } else {
        match variant_table(
            opened,
            parsed,
            carrier,
            row,
            pending_groups(groups, pending),
        ) {
            Err(error) => Err(error),
            Ok(table) => Ok(
                RowFindingsView {
                    conflicts: pending_conflicts(
                        asset_path,
                        row.id,
                        groups,
                        pending,
                        table,
                    ),
                    drift: after,
                },
            ),
        }
    }
}

/// The findings of a row that the base Pak has.
pub open spec fn carrier_row_findings(
    opened: Seq<OpenedPakView>,
    parsed: Seq<ParsedDbProviderView>,
    carrier: int,
    asset_path: Seq<char>,
    row: DatabaseRow,
    drift: DriftCount,
) -> Outcome<RowFindingsView> {
    match row.units {
        Err(text) => Err(MergeErrorView::BinaryAsset(text@)),
        Ok(units) => match comparison_of(parsed, carrier, row, units@) {
            Err(error) => Err(error),
            Ok(found) => if found.shape_mismatch || found.layout_mismatch {
                Ok(
                    RowFindingsView {
                        conflicts: seq![
                            conflict_of(
                                ConflictKind::StructureMismatch,
                                asset_path,
                                Some(row.id),
                                Some("__whole_row__"@),
                                if found.shape_mismatch {
                                    "This row has a different field layout. Choose one Pak for the whole row."@
                                } else {
                                    "Linked fields or lists have different layouts. Choose one Pak for the whole row."@
                                },
                                whole_row_variants(opened, parsed, carrier, asset_path, row),
                                true,
                            ),
                        ],
                        drift,
                    },
                )
            } else {
                unit_findings(
                    opened,
                    parsed,
                    carrier,
                    asset_path,
                    row,
                    drift,
                    groups_of(units@),
                    found.flags,
                )
            },
        },
    }
}

/// What a row adds to an analysis.
pub struct RowFindings {
    pub conflicts: Vec<Conflict>,
    pub drift: DriftCount,
}

impl View for RowFindings {
    type V = RowFindingsView;

    open spec fn view(&self) -> RowFindingsView {
        RowFindingsView { conflicts: views(self.conflicts@), drift: self.drift }
    }
}

fn pick_groups<'b>(units: &'b Vec<RowUnit>, pending: &Vec<PendingUnit>) -> (result: Vec<
    &'b AtomicGroup,
>)
    requires
        forall|i: int| 0 <= i < pending@.len() ==> (#[trigger] pending@[i]).unit < units@.len(),
    ensures
        result@.map_values(|group: &AtomicGroup| group@) == pending_groups(
            groups_of(units@),
            pending@,
        ),
        result@.len() == pending@.len(),
{
    let ghost wanted = pending_groups(groups_of(units@), pending@);
    let mut result: Vec<&'b AtomicGroup> = Vec::new();
    let mut at: usize = 0;
    while at < pending.len()
        invariant
            at <= pending@.len(),
            result@.len() == at,
            wanted == pending_groups(groups_of(units@), pending@),
            forall|i: int| 0 <= i < pending@.len() ==> (#[trigger] pending@[i]).unit < units@.len(),
            forall|i: int| 0 <= i < at ==> (#[trigger] result@[i])@ == wanted[i],
        decreases pending.len() - at,
    {
        let group = &units[pending[at].unit].group;
        proof {
            assert(groups_of(units@)[pending@[at as int].unit as int] == group@);
            assert(wanted[at as int] == group@);
        }
        result.push(group);
        at += 1;
    }
    assert(result@.map_values(|group: &AtomicGroup| group@) =~= wanted);
    result
}

fn conflicts_of_pending(
    asset_path: &str,
    row_id: i64,
    units: &Vec<RowUnit>,
    pending: &Vec<PendingUnit>,
    table: &Vec<Vec<Variant>>,
) -> (result: Vec<Conflict>)
    requires
        forall|i: int| 0 <= i < pending@.len() ==> (#[trigger] pending@[i]).unit < units@.len(),
        table_width(table@, pending@.len()),
    ensures
        views(result@) == pending_conflicts(
            asset_path@,
            row_id,
            groups_of(units@),
            pending@,
            variant_rows(table@),
        ),
{
    let ghost wanted = pending_conflicts(
        asset_path@,
        row_id,
        groups_of(units@),
        pending@,
        variant_rows(table@),
    );
    let mut result: Vec<Conflict> = Vec::new();
    let mut at: usize = 0;
    while at < pending.len()
        invariant
            at <= pending@.len(),
            wanted == pending_conflicts(
                asset_path@,
                row_id,
                groups_of(units@),
                pending@,
                variant_rows(table@),
            ),
            forall|i: int| 0 <= i < pending@.len() ==> (#[trigger] pending@[i]).unit < units@.len(),
            table_width(table@, pending@.len()),
            views(result@) == wanted.take(at as int),
        decreases pending.len() - at,
    {
        let item = pending[at];
        let group = &units[item.unit].group;
        let message = if item.blocking {
            "The saved values differ. Choose which Pak to use."
        } else {
            "The value is the same, but its storage format differs. The base Pak format will be kept."
        };
        let conflict = make_conflict(
            item.kind,
            asset_path,
            Some(row_id),
            Some(group.id.as_str()),
            message,
            take_column(table, at),
            item.blocking,
        );
        proof {
            assert(groups_of(units@)[item.unit as int] == group@);
            views_push(result@, conflict);
            assert(wanted[at as int] == conflict@);
            assert(wanted.take(at as int + 1) =~= wanted.take(at as int).push(conflict@));
        }
        result.push(conflict);
        at += 1;
    }
    assert(wanted.take(at as int) =~= wanted);
    result
}

/// Compares a row that the base Pak has.
pub fn compare_carrier_row(
    opened: &Vec<OpenedPak>,
    parsed: &Vec<ParsedDbProvider>,
    carrier_local: usize,
    asset_path: &str,
    row: &DatabaseRow,
    drift: DriftCount,
) -> (result: Result<RowFindings>)
    requires
        parsed_well(parsed@, opened@.len()),
        carrier_local < parsed@.len(),
    ensures
        seen(result) == carrier_row_findings(
            views(opened@),
            views(parsed@),
            carrier_local as int,
            asset_path@,
            *row,
            drift,
        ),
{
    let units = match &row.units {
        Ok(units) => units,
        Err(text) => {
            return Err(MergeError::BinaryAsset(text.clone()));
        },
    };
    let found = match compare_with_donors(parsed, carrier_local, row, units) {
        Ok(found) => found,
        Err(error) => {
            return Err(error);
        },
    };
    if found.shape_mismatch || found.layout_mismatch {
        let variants = make_whole_row_variants(opened, parsed, carrier_local, asset_path, row);
        let message = if found.shape_mismatch {
            "This row has a different field layout. Choose one Pak for the whole row."
        } else {
            "Linked fields or lists have different layouts. Choose one Pak for the whole row."
        };
        let conflict = make_conflict(
            ConflictKind::StructureMismatch,
            asset_path,
            Some(row.id),
            Some("__whole_row__"),
            message,
            variants,
            true,
        );
        let mut conflicts: Vec<Conflict> = Vec::new();
        conflicts.push(conflict);
        assert(views(conflicts@) =~= seq![conflict@]);
        return Ok(RowFindings { conflicts, drift });
    }
    let (pending, after) = find_pending(drift, units, &found.flags);
    if pending.len() == 0 {
        let conflicts: Vec<Conflict> = Vec::new();
        assert(views(conflicts@) =~= Seq::<ConflictView>::empty());
        return Ok(RowFindings { conflicts, drift: after });
    }
    let groups = pick_groups(units, &pending);
    let table = match make_atomic_variant_sets(opened, parsed, carrier_local, row, &groups) {
        Ok(table) => table,
        Err(error) => {
            return Err(error);
        },
    };
    let conflicts = conflicts_of_pending(asset_path, row.id, units, &pending, &table);
    Ok(RowFindings { conflicts, drift: after })
}

/// Whether the row differs in meaning between the providers from `at` on and the
/// first provider that had it.
pub open spec fn row_differs_from(
    parsed: Seq<ParsedDbProviderView>,
    at: int,
    row_id: i64,
    first: Option<Seq<char>>,
) -> bool
    decreases parsed.len() - at,
{
    if at >= parsed.len() {
        false
    } else {
        match row_from(parsed[at].asset.rows@, row_id) {
            None => row_differs_from(parsed, at + 1, row_id, first),
            Some(row) => match first {
                None => row_differs_from(parsed, at + 1, row_id, Some(row.semantic_sha256@)),
                Some(known) => known != row.semantic_sha256@ || row_differs_from(
                    parsed,
                    at + 1,
                    row_id,
                    first,
                ),
            },
        }
    }
}

fn row_differs(parsed: &Vec<ParsedDbProvider>, row_id: i64) -> (result: bool)
    ensures
        result == row_differs_from(views(parsed@), 0, row_id, None),
{
    let ghost all = views(parsed@);
    let mut first: Option<String> = None;
    let mut at: usize = 0;
    while at < parsed.len()
        invariant
            at <= parsed@.len(),
            all == views(parsed@),
            row_differs_from(all, 0, row_id, None) == row_differs_from(
                all,
                at as int,
                row_id,
                crate::text::text_view(first),
            ),
        decreases parsed.len() - at,
    {
        assert(all[at as int] == parsed@[at as int]@);
        match indexed_row(&parsed[at].asset, row_id) {
            None => {},
            Some(row) => match &first {
                None => {
                    first = Some(row.semantic_sha256.clone());
                },
                Some(known) => {
                    if !same_text(known.as_str(), row.semantic_sha256.as_str()) {
                        return true;
                    }
                },
            },
        }
        at += 1;
    }
    false
}

/// The findings of a row that the base Pak has not.
pub open spec fn added_row_findings(
    opened: Seq<OpenedPakView>,
    parsed: Seq<ParsedDbProviderView>,
    asset_path: Seq<char>,
    row_id: i64,
) -> Seq<ConflictView> {
    if row_differs_from(parsed, 0, row_id, None) {
        seq![
            conflict_of(
                ConflictKind::RowIdCollision,
                asset_path,
                Some(row_id),
                Some("$row"@),
                "This row is not in the base Pak and differs between the other Paks. Choose one Pak for the whole row."@,
                other_row_variants(
                    Seq::empty(),
                    opened,
                    parsed,
                    0,
                    -1,
                    asset_path,
                    row_id,
                    "$row"@,
                ),
                true,
            ),
        ]
    } else {
        Seq::empty()
    }
}

/// Compares a row that the base Pak has not.
pub fn compare_added_row(
    opened: &Vec<OpenedPak>,
    parsed: &Vec<ParsedDbProvider>,
    asset_path: &str,
    row_id: i64,
) -> (result: Vec<Conflict>)
    requires
        parsed_well(parsed@, opened@.len()),
    ensures
        views(result@) == added_row_findings(views(opened@), views(parsed@), asset_path@, row_id),
{
    let mut conflicts: Vec<Conflict> = Vec::new();
    assert(views(conflicts@) =~= Seq::<ConflictView>::empty());
    if row_differs(parsed, row_id) {
        let mut variants: Vec<Variant> = Vec::new();
        assert(views(variants@) =~= Seq::<VariantView>::empty());
        push_row_variants(&mut variants, opened, parsed, None, asset_path, row_id, "$row");
        let conflict = make_conflict(
            ConflictKind::RowIdCollision,
            asset_path,
            Some(row_id),
            Some("$row"),
            "This row is not in the base Pak and differs between the other Paks. Choose one Pak for the whole row.",
            variants,
            true,
        );
        conflicts.push(conflict);
        assert(views(conflicts@) =~= seq![conflict@]);
    }
    conflicts
}

} // verus!
