//! What plans list, count and offer, and what is told of settled conflicts.
use vstd::prelude::*;

use super::analyze::{capped_sum, drift_total, gathered_from, with_output, GatheredView};
use super::conflicts::{
    group_variants_from, loose_conflict, loose_variants_from, ordering_keeps_the_variants,
    package_selection, whole_variant,
};
use super::differences::offers;
use super::group::blocking_ids;
use super::opened::OpenedPakView;
use super::providers::{
    canonical_digest, entry_at, group_digest_of, GroupProviderView, LooseProviderView,
};
use super::resolve::{conflict_records, variant_of_input, variant_with};
use super::types::{AssetPlanView, ConflictKind, ConflictView, VariantView};
use super::units::AnalysisUnitOutputView;
use crate::ordered::get;
use crate::text::dec;

verus! {

/// A list of variants has one with this id.
pub open spec fn has_variant(variants: Seq<VariantView>, id: Seq<char>) -> bool {
    exists|v: int| 0 <= v < variants.len() && (#[trigger] variants[v]).id == id
}

/// A list of variants has one of this input.
pub open spec fn has_input(variants: Seq<VariantView>, input_id: Seq<char>) -> bool {
    exists|v: int| 0 <= v < variants.len() && (#[trigger] variants[v]).input_id == input_id
}

proof fn variants_are_found_by_id(variants: Seq<VariantView>, id: Seq<char>)
    ensures
        variant_with(variants, id) is Some <==> has_variant(variants, id),
        variant_with(variants, id) matches Some(variant) ==> variant.id == id
            && variants.contains(variant),
    decreases variants.len(),
{
    if variants.len() > 0 && variants[0].id != id {
        let rest = variants.skip(1);
        variants_are_found_by_id(rest, id);
        assert forall|v: int| 0 <= v < rest.len() implies #[trigger] rest[v] == variants[v + 1] by {}
        if has_variant(variants, id) {
            let v = choose|v: int| 0 <= v < variants.len() && (#[trigger] variants[v]).id == id;
            assert(rest[v - 1].id == id);
        }
        if has_variant(rest, id) {
            let v = choose|v: int| 0 <= v < rest.len() && (#[trigger] rest[v]).id == id;
            assert(variants[v + 1].id == id);
            let found = variant_with(rest, id)->0;
            let w = choose|w: int| 0 <= w < rest.len() && rest[w] == found;
            assert(variants[w + 1] == found);
        }
    }
}

proof fn variants_are_found_by_input(variants: Seq<VariantView>, input_id: Seq<char>)
    ensures
        variant_of_input(variants, input_id) is Some <==> has_input(variants, input_id),
        variant_of_input(variants, input_id) matches Some(variant) ==> variant.input_id == input_id
            && variants.contains(variant),
    decreases variants.len(),
{
    if variants.len() > 0 && variants[0].input_id != input_id {
        let rest = variants.skip(1);
        variants_are_found_by_input(rest, input_id);
        assert forall|v: int| 0 <= v < rest.len() implies #[trigger] rest[v] == variants[v + 1] by {}
        if has_input(variants, input_id) {
            let v = choose|v: int|
                0 <= v < variants.len() && (#[trigger] variants[v]).input_id == input_id;
            assert(rest[v - 1].input_id == input_id);
        }
        if has_input(rest, input_id) {
            let v = choose|v: int| 0 <= v < rest.len() && (#[trigger] rest[v]).input_id == input_id;
            assert(variants[v + 1].input_id == input_id);
            let found = variant_of_input(rest, input_id)->0;
            let w = choose|w: int| 0 <= w < rest.len() && rest[w] == found;
            assert(variants[w + 1] == found);
        }
    }
}

/// No two variants of a conflict have the same id.
pub open spec fn variants_differ(variants: Seq<VariantView>) -> bool {
    forall|i: int, j: int|
        0 <= i < j < variants.len() ==> (#[trigger] variants[i]).id != (#[trigger] variants[j]).id
}

/// Each conflict has one record, in the order of the conflicts. Where a variant of it
/// was chosen, the record tells that variant; where none was chosen and a choice is
/// needed, it tells none; where only the storage differs, it tells the variant of the
/// base Pak if there is one. Only what was not chosen counts as automatic.
pub proof fn records_tell_what_was_chosen(
    conflicts: Seq<ConflictView>,
    choices: Seq<(Seq<char>, Seq<char>)>,
    carrier_id: Seq<char>,
    at: int,
)
    requires
        0 <= at < conflicts.len(),
    ensures
        conflict_records(conflicts, choices, carrier_id).len() == conflicts.len(),
        ({
            let conflict = conflicts[at];
            let record = conflict_records(conflicts, choices, carrier_id)[at];
            &&& record.conflict_id == conflict.id
            &&& record.selected_variant matches Some(variant) ==> conflict.variants.contains(variant)
            &&& get(choices, conflict.id) matches Some(id) ==> {
                &&& !record.automatic
                &&& record.selected_variant is Some <==> has_variant(conflict.variants, id)
                &&& record.selected_variant matches Some(variant) ==> variant.id == id
            }
            &&& get(choices, conflict.id) is None && (conflict.blocking || conflict.kind
                != ConflictKind::EncodingDrift) ==> record.selected_variant is None
                && !record.automatic
            &&& get(choices, conflict.id) is None && !conflict.blocking && conflict.kind
                == ConflictKind::EncodingDrift ==> {
                &&& record.automatic <==> conflict.variants.len() > 0
                &&& record.selected_variant is Some <==> conflict.variants.len() > 0
                &&& variants_differ(conflict.variants) && has_input(conflict.variants, carrier_id)
                    ==> record.selected_variant->0.input_id == carrier_id
            }
        }),
{
    let conflict = conflicts[at];
    let variants = conflict.variants;
    variants_are_found_by_input(variants, carrier_id);
    match get(choices, conflict.id) {
        Some(id) => {
            variants_are_found_by_id(variants, id);
        },
        None => {
            if variants.len() > 0 {
                assert(variants.contains(variants[0]));
                variants_are_found_by_id(variants, variants[0].id);
                assert(has_variant(variants, variants[0].id));
            }
            match variant_of_input(variants, carrier_id) {
                Some(own) => {
                    variants_are_found_by_id(variants, own.id);
                    let v = choose|v: int| 0 <= v < variants.len() && variants[v] == own;
                    assert(variants[v].id == own.id);
                    assert(has_variant(variants, own.id));
                    let found = variant_with(variants, own.id)->0;
                    let w = choose|w: int| 0 <= w < variants.len() && variants[w] == found;
                    assert(variants[w].id == variants[v].id);
                    if variants_differ(variants) {
                        assert(w == v);
                    }
                },
                None => {},
            }
        },
    }
}

/// The conflicts that need a choice are listed, each by its id, and no others are.
pub proof fn conflicts_that_need_a_choice_are_listed(conflicts: Seq<ConflictView>, id: Seq<char>)
    ensures
        blocking_ids(conflicts).contains(id) <==> exists|i: int|
            0 <= i < conflicts.len() && (#[trigger] conflicts[i]).blocking && conflicts[i].id == id,
    decreases conflicts.len(),
{
    if conflicts.len() > 0 {
        let rest = conflicts.drop_last();
        let before = blocking_ids(rest);
        let last = conflicts.last();
        conflicts_that_need_a_choice_are_listed(rest, id);
        assert forall|i: int| 0 <= i < rest.len() implies #[trigger] rest[i] == conflicts[i] by {}
        assert(conflicts[conflicts.len() - 1] == last);
        if before.contains(id) {
            let k = choose|k: int| 0 <= k < before.len() && before[k] == id;
            let i = choose|i: int|
                0 <= i < rest.len() && (#[trigger] rest[i]).blocking && rest[i].id == id;
            assert(conflicts[i].blocking && conflicts[i].id == id);
            assert(before.push(last.id)[k] == id);
        }
        assert(before.push(last.id)[before.len() as int] == last.id);
        if blocking_ids(conflicts).contains(id) && !before.contains(id) {
            let k = choose|k: int|
                0 <= k < blocking_ids(conflicts).len() && blocking_ids(conflicts)[k] == id;
            if k < before.len() {
                assert(before[k] == id);
            }
        }
        if exists|i: int|
            0 <= i < conflicts.len() && (#[trigger] conflicts[i]).blocking && conflicts[i].id == id {
            let i = choose|i: int|
                0 <= i < conflicts.len() && (#[trigger] conflicts[i]).blocking && conflicts[i].id
                    == id;
            if i < rest.len() {
                assert(rest[i].blocking && rest[i].id == id);
            }
        }
    }
}

/// A count of all assets is the sum of their counts, however the list is divided.
pub proof fn counts_of_all_assets_add_up(left: Seq<AssetPlanView>, right: Seq<AssetPlanView>)
    ensures
        drift_total(left + right) == capped_sum(drift_total(left), drift_total(right)),
        left.len() == 1 ==> drift_total(left) == left[0].encoding_drift_count,
    decreases right.len(),
{
    if left.len() == 1 {
        assert(left.drop_last().len() == 0);
        assert(drift_total(left.drop_last()) == 0);
    }
    if right.len() == 0 {
        assert(left + right =~= left);
    } else {
        counts_of_all_assets_add_up(left, right.drop_last());
        assert((left + right).drop_last() =~= left + right.drop_last());
        assert((left + right).last() == right.last());
    }
}

/// The warnings of each unit are among all warnings, and so are those from before.
pub proof fn all_warnings_are_gathered(
    state: GatheredView,
    outputs: Seq<AnalysisUnitOutputView>,
    warning: Seq<char>,
)
    ensures
        gathered_from(state, outputs) matches Ok(found) ==> (found.warnings.contains(warning) <==> (
        state.warnings.contains(warning) || exists|u: int|
            0 <= u < outputs.len() && (#[trigger] outputs[u]).warnings.contains(warning))),
    decreases outputs.len(),
{
    if outputs.len() > 0 {
        match with_output(state, outputs[0]) {
            Err(_) => {},
            Ok(next) => {
                let rest = outputs.skip(1);
                all_warnings_are_gathered(next, rest, warning);
                sums_hold_both(state.warnings, outputs[0].warnings, warning);
                assert forall|u: int| 0 <= u < rest.len() implies #[trigger] rest[u] == outputs[u
                    + 1] by {}
                if exists|u: int|
                    0 <= u < outputs.len() && (#[trigger] outputs[u]).warnings.contains(warning) {
                    let u = choose|u: int|
                        0 <= u < outputs.len() && (#[trigger] outputs[u]).warnings.contains(warning);
                    if u > 0 {
                        assert(rest[u - 1].warnings.contains(warning));
                    }
                }
                if exists|u: int|
                    0 <= u < rest.len() && (#[trigger] rest[u]).warnings.contains(warning) {
                    let u = choose|u: int|
                        0 <= u < rest.len() && (#[trigger] rest[u]).warnings.contains(warning);
                    assert(outputs[u + 1].warnings.contains(warning));
                }
            },
        }
    }
}

proof fn sums_hold_both<T>(left: Seq<T>, right: Seq<T>, item: T)
    ensures
        (left + right).contains(item) <==> left.contains(item) || right.contains(item),
{
    let sum = left + right;
    if left.contains(item) {
        let i = choose|i: int| 0 <= i < left.len() && left[i] == item;
        assert(sum[i] == item);
    }
    if right.contains(item) {
        let i = choose|i: int| 0 <= i < right.len() && right[i] == item;
        assert(sum[left.len() + i] == item);
    }
    if sum.contains(item) {
        let i = choose|i: int| 0 <= i < sum.len() && sum[i] == item;
        if i < left.len() {
            assert(left[i] == item);
        } else {
            assert(right[i - left.len()] == item);
        }
    }
}

/// A variant is of an input and has one digest throughout.
pub open spec fn stands_for(variant: VariantView, input_id: Seq<char>, digest: Seq<char>) -> bool {
    &&& variant.input_id == input_id
    &&& variant.raw_sha256 == digest
    &&& variant.semantic_sha256 == digest
}

proof fn packages_become_variants(
    done: Seq<VariantView>,
    opened: Seq<OpenedPakView>,
    providers: Seq<GroupProviderView>,
    at: int,
)
    requires
        0 <= at <= providers.len(),
    ensures
        group_variants_from(done, opened, providers, at) matches Ok(found) ==> {
            &&& found.len() == done.len() + providers.len() - at
            &&& forall|k: int| 0 <= k < done.len() ==> #[trigger] found[k] == done[k]
            &&& forall|p: int|
                at <= p < providers.len() ==> {
                    let input = opened[(#[trigger] providers[p]).input_index as int];
                    &&& group_digest_of(input, providers[p].group) is Ok
                    &&& stands_for(
                        found[done.len() + p - at],
                        input.descriptor.id,
                        group_digest_of(input, providers[p].group)->Ok_0,
                    )
                }
        },
    decreases providers.len() - at,
{
    if at < providers.len() {
        let input = opened[providers[at].input_index as int];
        match group_digest_of(input, providers[at].group) {
            Err(_) => {},
            Ok(digest) => {
                let next = done.push(
                    whole_variant(
                        providers[0].group.base_path,
                        input.descriptor,
                        digest,
                        dec(providers[at].group.components.listed().len())
                            + " related files"@,
                        "whole-file-group"@,
                    ),
                );
                packages_become_variants(next, opened, providers, at + 1);
                match group_variants_from(next, opened, providers, at + 1) {
                    Err(_) => {},
                    Ok(found) => {
                        assert(found[done.len() as int] == next[done.len() as int]);
                        assert forall|k: int| 0 <= k < done.len() implies #[trigger] found[k]
                            == done[k] by {
                            assert(next[k] == done[k]);
                        }
                    },
                }
            },
        }
    }
}

proof fn files_become_variants(
    done: Seq<VariantView>,
    opened: Seq<OpenedPakView>,
    providers: Seq<LooseProviderView>,
    at: int,
)
    requires
        0 <= at <= providers.len(),
    ensures
        loose_variants_from(done, opened, providers, at) matches Ok(found) ==> {
            &&& found.len() == done.len() + providers.len() - at
            &&& forall|k: int| 0 <= k < done.len() ==> #[trigger] found[k] == done[k]
            &&& forall|p: int|
                at <= p < providers.len() ==> {
                    let input = opened[(#[trigger] providers[p]).input_index as int];
                    &&& canonical_digest(input, providers[p].path) is Ok
                    &&& stands_for(
                        found[done.len() + p - at],
                        input.descriptor.id,
                        canonical_digest(input, providers[p].path)->Ok_0,
                    )
                }
        },
    decreases providers.len() - at,
{
    if at < providers.len() {
        let input = opened[providers[at].input_index as int];
        match (
            entry_at(input, providers[at].path),
            canonical_digest(input, providers[at].path),
        ) {
            (Ok(entry), Ok(digest)) => {
                let next = done.push(
                    whole_variant(
                        providers[0].path,
                        input.descriptor,
                        digest,
                        dec(entry.size as nat) + " bytes"@,
                        "whole-file"@,
                    ),
                );
                files_become_variants(next, opened, providers, at + 1);
                match loose_variants_from(next, opened, providers, at + 1) {
                    Err(_) => {},
                    Ok(found) => {
                        assert(found[done.len() as int] == next[done.len() as int]);
                        assert forall|k: int| 0 <= k < done.len() implies #[trigger] found[k]
                            == done[k] by {
                            assert(next[k] == done[k]);
                        }
                    },
                }
            },
            _ => {},
        }
    }
}

proof fn ordered_variants_hold(variants: Seq<VariantView>, ordered: Seq<VariantView>, at: int)
    requires
        0 <= at < variants.len(),
        ordered.to_multiset() == variants.to_multiset(),
    ensures
        ordered.contains(variants[at]),
{
    broadcast use vstd::seq_lib::group_to_multiset_ensures;

    assert(variants.contains(variants[at]));
    assert(variants.to_multiset().count(variants[at]) > 0);
    assert(ordered.to_multiset().count(variants[at]) > 0);
}

/// Where a package is chosen as a whole, each input that holds it is offered, with the
/// digest of the package there, and as many variants are offered as inputs hold it.
pub proof fn holders_of_a_package_are_offered(
    opened: Seq<OpenedPakView>,
    providers: Seq<GroupProviderView>,
    kind: ConflictKind,
    message: Seq<char>,
    at: int,
)
    requires
        0 <= at < providers.len(),
    ensures
        package_selection(opened, providers, kind, message) matches Ok(found) ==> {
            let input = opened[providers[at].input_index as int];
            let digest = group_digest_of(input, providers[at].group);
            &&& digest is Ok
            &&& offers(found.1, input.descriptor.id, (digest->Ok_0, digest->Ok_0))
            &&& found.1.variants.len() == providers.len()
            &&& found.1.asset_path == providers[0].group.base_path
        },
{
    packages_become_variants(Seq::empty(), opened, providers, 0);
    match group_variants_from(Seq::empty(), opened, providers, 0) {
        Err(_) => {},
        Ok(variants) => {
            let conflict = package_selection(opened, providers, kind, message)->Ok_0.1;
            let input = opened[providers[at].input_index as int];
            let digest = group_digest_of(input, providers[at].group)->Ok_0;
            ordering_keeps_the_variants(variants);
            ordered_variants_hold(variants, conflict.variants, at);
            assert(stands_for(variants[at], input.descriptor.id, digest));
            let v = choose|v: int|
                0 <= v < conflict.variants.len() && conflict.variants[v] == variants[at];
            assert(conflict.variants[v].input_id == input.descriptor.id);
        },
    }
}

/// Where a file of no package differs, each input that holds it is offered, with the
/// digest of the file there, and as many variants are offered as inputs hold it.
pub proof fn holders_of_a_file_are_offered(
    opened: Seq<OpenedPakView>,
    providers: Seq<LooseProviderView>,
    at: int,
)
    requires
        0 <= at < providers.len(),
    ensures
        loose_conflict(opened, providers) matches Ok(found) ==> {
            let input = opened[providers[at].input_index as int];
            let digest = canonical_digest(input, providers[at].path);
            &&& digest is Ok
            &&& offers(found, input.descriptor.id, (digest->Ok_0, digest->Ok_0))
            &&& found.variants.len() == providers.len()
            &&& found.asset_path == providers[0].path
        },
{
    files_become_variants(Seq::empty(), opened, providers, 0);
    match loose_variants_from(Seq::empty(), opened, providers, 0) {
        Err(_) => {},
        Ok(variants) => {
            let conflict = loose_conflict(opened, providers)->Ok_0;
            let input = opened[providers[at].input_index as int];
            let digest = canonical_digest(input, providers[at].path)->Ok_0;
            ordering_keeps_the_variants(variants);
            ordered_variants_hold(variants, conflict.variants, at);
            assert(stands_for(variants[at], input.descriptor.id, digest));
            let v = choose|v: int|
                0 <= v < conflict.variants.len() && conflict.variants[v] == variants[at];
            assert(conflict.variants[v].input_id == input.descriptor.id);
        },
    }
}

} // verus!
