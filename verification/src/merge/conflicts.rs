//! Conflicts and the variants that settle them.
use vstd::prelude::*;

use super::error::{MergeError, MergeErrorView, Outcome, Result};
use super::ids::{stable_id, stable_id_of};
use super::opened::{all_well_formed, OpenedPak, OpenedPakView};
use super::providers::{
    canonical_digest, canonical_logical_sha256, entry_at, group_digest, group_digest_of,
    inventory_entry, package_asset_plan, package_plan, GroupProvider, GroupProviderView,
    LooseProvider, LooseProviderView,
};
use super::types::{
    AssetActionKind, AssetPlan, AssetPlanView, Conflict, ConflictKind, ConflictView,
    InputDescriptor, InputDescriptorView, Provenance, ProvenanceView, Variant, VariantView,
};
use crate::lists::{views, views_push, Duplicate};
use crate::ordered::{text_order_is_strict_and_total, values};
use crate::sorting::{
    pair_views, sort_keyed, sorted, sorted_is_an_ordering, sorting_is_stable, take_values,
    values_of_equal_bags,
};
use crate::text::{
    cat2, dec, decimal, decimal_usize, signed_dec, signed_decimal, text_less, texts, texts_push,
    text_view,
};

verus! {

/// How many conflicts a plan may hold.
pub const MAX_PLAN_CONFLICTS: usize = 50_000;

pub open spec fn by_id(variants: Seq<VariantView>) -> Seq<(Seq<char>, VariantView)> {
    variants.map_values(|variant: VariantView| (variant.id, variant))
}

pub open spec fn by_input(variants: Seq<VariantView>) -> Seq<(Seq<char>, VariantView)> {
    variants.map_values(|variant: VariantView| (variant.input_id, variant))
}

/// Variants in the order of their inputs; those of one input in the order of
/// their ids.
pub open spec fn ordered_variants(variants: Seq<VariantView>) -> Seq<VariantView> {
    values(sorted(by_input(values(sorted(by_id(variants))))))
}

fn sort_by_id(variants: &Vec<Variant>) -> (result: Vec<Variant>)
    ensures
        views(result@) == values(sorted(by_id(views(variants@)))),
{
    let ghost all = by_id(views(variants@));
    let mut items: Vec<(String, Variant)> = Vec::new();
    let mut at: usize = 0;
    assert(pair_views(items@) =~= all.take(0));
    while at < variants.len()
        invariant
            at <= variants@.len(),
            all == by_id(views(variants@)),
            pair_views(items@) == all.take(at as int),
        decreases variants.len() - at,
    {
        let item = (variants[at].id.clone(), variants[at].copy());
        proof {
            assert(views(variants@)[at as int] == variants@[at as int]@);
            assert(all[at as int] == (item.0@, item.1@));
            assert(pair_views(items@.push(item)) =~= pair_views(items@).push((item.0@, item.1@)));
            assert(all.take(at as int + 1) =~= all.take(at as int).push(all[at as int]));
        }
        items.push(item);
        at += 1;
    }
    assert(all.take(at as int) =~= all);
    take_values(&sort_keyed(items))
}

fn sort_by_input(variants: &Vec<Variant>) -> (result: Vec<Variant>)
    ensures
        views(result@) == values(sorted(by_input(views(variants@)))),
{
    let ghost all = by_input(views(variants@));
    let mut items: Vec<(String, Variant)> = Vec::new();
    let mut at: usize = 0;
    assert(pair_views(items@) =~= all.take(0));
    while at < variants.len()
        invariant
            at <= variants@.len(),
            all == by_input(views(variants@)),
            pair_views(items@) == all.take(at as int),
        decreases variants.len() - at,
    {
        let item = (variants[at].input_id.clone(), variants[at].copy());
        proof {
            assert(views(variants@)[at as int] == variants@[at as int]@);
            assert(all[at as int] == (item.0@, item.1@));
            assert(pair_views(items@.push(item)) =~= pair_views(items@).push((item.0@, item.1@)));
            assert(all.take(at as int + 1) =~= all.take(at as int).push(all[at as int]));
        }
        items.push(item);
        at += 1;
    }
    assert(all.take(at as int) =~= all);
    take_values(&sort_keyed(items))
}

/// Ordering neither drops nor doubles a variant.
pub proof fn ordering_keeps_the_variants(variants: Seq<VariantView>)
    ensures
        ordered_variants(variants).len() == variants.len(),
        ordered_variants(variants).to_multiset() == variants.to_multiset(),
{
    let first = sorted(by_id(variants));
    let second = sorted(by_input(values(first)));
    sorted_is_an_ordering(by_id(variants));
    sorted_is_an_ordering(by_input(values(first)));
    values_of_equal_bags(by_id(variants), first);
    values_of_equal_bags(by_input(values(first)), second);
    assert(values(by_id(variants)) =~= variants);
    assert(values(by_input(values(first))) =~= values(first));
}

pub open spec fn variant_ids(variants: Seq<VariantView>) -> Seq<Seq<char>> {
    variants.map_values(|variant: VariantView| variant.id)
}

pub open spec fn row_text(row_id: Option<i64>) -> Option<Seq<char>> {
    match row_id {
        Some(id) => Some(signed_dec(id as int)),
        None => None,
    }
}

pub open spec fn or_nothing(text: Option<Seq<char>>) -> Seq<char> {
    match text {
        Some(text) => text,
        None => Seq::empty(),
    }
}

/// A conflict. Its id follows from what it is about and from its variants.
pub open spec fn conflict_of(
    kind: ConflictKind,
    asset_path: Seq<char>,
    row_id: Option<i64>,
    group_id: Option<Seq<char>>,
    message: Seq<char>,
    variants: Seq<VariantView>,
    blocking: bool,
) -> ConflictView {
    let ordered = ordered_variants(variants);
    ConflictView {
        id: stable_id_of(
            "conflict"@,
            seq![asset_path, or_nothing(row_text(row_id)), or_nothing(group_id)] + variant_ids(
                ordered,
            ),
        ),
        kind,
        asset_path,
        row_id: row_text(row_id),
        group_id,
        message,
        variants: ordered,
        blocking,
    }
}

pub fn make_conflict(
    kind: ConflictKind,
    asset_path: &str,
    row_id: Option<i64>,
    group_id: Option<&str>,
    message: &str,
    variants: Vec<Variant>,
    blocking: bool,
) -> (result: Conflict)
    ensures
        result@ == conflict_of(
            kind,
            asset_path@,
            row_id,
            (match group_id {
                Some(id) => Some(id@),
                None => None,
            }),
            message@,
            views(variants@),
            blocking,
        ),
{
    let ordered = sort_by_input(&sort_by_id(&variants));
    let row = match row_id {
        Some(id) => Some(signed_decimal(id)),
        None => None,
    };
    let group = match group_id {
        Some(id) => Some(id.to_owned()),
        None => None,
    };
    let mut parts: Vec<String> = Vec::new();
    parts.push(asset_path.to_owned());
    parts.push(
        match &row {
            Some(text) => text.clone(),
            None => String::new(),
        },
    );
    parts.push(
        match &group {
            Some(text) => text.clone(),
            None => String::new(),
        },
    );
    let ghost head = seq![
        asset_path@,
        or_nothing(row_text(row_id)),
        or_nothing(text_view(group)),
    ];
    let ghost ids = variant_ids(views(ordered@));
    let mut at: usize = 0;
    proof {
        assert(parts@[1]@ =~= or_nothing(row_text(row_id)));
        assert(parts@[2]@ =~= or_nothing(text_view(group)));
        assert(texts(parts@) =~= head + ids.take(0));
    }
    while at < ordered.len()
        invariant
            at <= ordered@.len(),
            ids == variant_ids(views(ordered@)),
            texts(parts@) == head + ids.take(at as int),
        decreases ordered.len() - at,
    {
        let id = ordered[at].id.clone();
        proof {
            texts_push(parts@, id);
            assert(views(ordered@)[at as int] == ordered@[at as int]@);
            assert(ids[at as int] == id@);
            assert(head + ids.take(at as int + 1) =~= (head + ids.take(at as int)).push(id@));
        }
        parts.push(id);
        at += 1;
    }
    assert(ids.take(at as int) =~= ids);
    Conflict {
        id: stable_id("conflict", &parts),
        kind,
        asset_path: asset_path.to_owned(),
        row_id: row,
        group_id: group,
        message: message.to_owned(),
        variants: ordered,
        blocking,
    }
}

/// A plan may not hold more conflicts than the limit.
pub open spec fn count_allowed(count: int) -> Outcome<()> {
    if count > MAX_PLAN_CONFLICTS {
        Err(
            MergeErrorView::TooManyConflicts { actual: count as usize, limit: MAX_PLAN_CONFLICTS },
        )
    } else {
        Ok(())
    }
}

pub fn ensure_conflict_count(conflicts: &Vec<Conflict>) -> (result: Result<()>)
    ensures
        super::error::seen(result) == count_allowed(conflicts@.len() as int),
{
    if conflicts.len() > MAX_PLAN_CONFLICTS {
        return Err(
            MergeError::TooManyConflicts { actual: conflicts.len(), limit: MAX_PLAN_CONFLICTS },
        );
    }
    Ok(())
}

/// A variant that stands for a whole package or file of one input.
pub open spec fn whole_variant(
    path: Seq<char>,
    input: InputDescriptorView,
    digest: Seq<char>,
    preview: Seq<char>,
    marker: Seq<char>,
) -> VariantView {
    VariantView {
        id: stable_id_of("variant"@, seq![path, input.id, digest]),
        label: input.display_name,
        input_id: input.id,
        raw_sha256: digest,
        semantic_sha256: digest,
        preview,
        marker,
        provenance: ProvenanceView {
            input_id: input.id,
            input_path: input.path,
            entry_path: Some(path),
            raw_sha256: digest,
        },
    }
}

fn make_whole_variant(
    path: &str,
    input: &InputDescriptor,
    digest: &str,
    preview: String,
    marker: &str,
) -> (result: Variant)
    ensures
        result@ == whole_variant(path@, input@, digest@, preview@, marker@),
{
    let mut parts: Vec<String> = Vec::new();
    parts.push(path.to_owned());
    parts.push(input.id.clone());
    parts.push(digest.to_owned());
    assert(texts(parts@) =~= seq![path@, input.id@, digest@]);
    Variant {
        id: stable_id("variant", &parts),
        label: input.display_name.clone(),
        input_id: input.id.clone(),
        raw_sha256: digest.to_owned(),
        semantic_sha256: digest.to_owned(),
        preview,
        marker: marker.to_owned(),
        provenance: Provenance {
            input_id: input.id.clone(),
            input_path: input.path.clone(),
            entry_path: Some(path.to_owned()),
            raw_sha256: digest.to_owned(),
        },
    }
}

/// The variants of a package that is chosen as a whole.
pub open spec fn group_variants_from(
    done: Seq<VariantView>,
    opened: Seq<OpenedPakView>,
    providers: Seq<GroupProviderView>,
    at: int,
) -> Outcome<Seq<VariantView>>
    decreases providers.len() - at,
{
    if at >= providers.len() {
        Ok(done)
    } else {
        let input = opened[providers[at].input_index as int];
        match group_digest_of(input, providers[at].group) {
            Err(error) => Err(error),
            Ok(digest) => group_variants_from(
                done.push(
                    whole_variant(
                        providers[0].group.base_path,
                        input.descriptor,
                        digest,
                        dec(providers[at].group.components.listed().len()) + " related files"@,
                        "whole-file-group"@,
                    ),
                ),
                opened,
                providers,
                at + 1,
            ),
        }
    }
}

/// The plan and the conflict of a package that is chosen as a whole.
pub open spec fn package_selection(
    opened: Seq<OpenedPakView>,
    providers: Seq<GroupProviderView>,
    kind: ConflictKind,
    message: Seq<char>,
) -> Outcome<(AssetPlanView, ConflictView)> {
    match group_variants_from(Seq::empty(), opened, providers, 0) {
        Err(error) => Err(error),
        Ok(variants) => {
            let conflict = conflict_of(
                kind,
                providers[0].group.base_path,
                None,
                None,
                message,
                variants,
                true,
            );
            Ok((
                package_plan(
                    providers,
                    opened,
                    AssetActionKind::SelectOpaque,
                    seq![conflict.id],
                    Seq::empty(),
                ),
                conflict,
            ))
        },
    }
}

/// The outcome of a step that yields a plan and a conflict.
pub open spec fn same_selection(
    result: Result<(AssetPlan, Conflict)>,
    wanted: Outcome<(AssetPlanView, ConflictView)>,
) -> bool {
    match (result, wanted) {
        (Ok(found), Ok(expected)) => found.0@ == expected.0 && found.1@ == expected.1,
        (Err(error), Err(expected)) => error@ == expected,
        _ => false,
    }
}

#[verifier::loop_isolation(false)]
pub fn analyze_package_selection_group(
    opened: &Vec<OpenedPak>,
    providers: &Vec<GroupProvider>,
    kind: ConflictKind,
    message: &str,
) -> (result: Result<(AssetPlan, Conflict)>)
    requires
        all_well_formed(opened@),
        providers@.len() > 0,
        forall|i: int|
            0 <= i < providers@.len() ==> (#[trigger] providers@[i]).input_index < opened@.len(),
    ensures
        same_selection(
            result,
            package_selection(views(opened@), views(providers@), kind, message@),
        ),
{
    let ghost all = views(providers@);
    let ghost inputs = views(opened@);
    assert(all[0] == providers@[0]@);
    let base_path = providers[0].group.base_path.clone();
    let mut variants: Vec<Variant> = Vec::new();
    let mut at: usize = 0;
    assert(views(variants@) =~= Seq::<VariantView>::empty());
    while at < providers.len()
        invariant
            at <= providers@.len(),
            group_variants_from(Seq::empty(), inputs, all, 0) == group_variants_from(
                views(variants@),
                inputs,
                all,
                at as int,
            ),
        decreases providers.len() - at,
    {
        let provider = &providers[at];
        let index: usize = provider.input_index;
        proof {
            assert(all[at as int] == provider@);
            assert(inputs[index as int] == opened@[index as int]@);
            assert(opened@[index as int].well_formed());
        }
        let digest = match group_digest(&opened[index], &provider.group) {
            Ok(digest) => digest,
            Err(error) => {
                return Err(error);
            },
        };
        let count: usize = provider.group.components.listed().len();
        assert(count == provider@.group.components.listed().len());
        let variant = make_whole_variant(
            base_path.as_str(),
            &opened[index].descriptor,
            digest.as_str(),
            cat2(decimal_usize(count).as_str(), " related files"),
            "whole-file-group",
        );
        proof {
            views_push(variants@, variant);
        }
        variants.push(variant);
        at += 1;
    }
    let conflict = make_conflict(kind, base_path.as_str(), None, None, message, variants, true);
    let mut ids: Vec<String> = Vec::new();
    ids.push(conflict.id.clone());
    assert(texts(ids@) =~= seq![conflict@.id]);
    let warnings: Vec<String> = Vec::new();
    assert(texts(warnings@) =~= Seq::<Seq<char>>::empty());
    let asset = package_asset_plan(
        providers,
        opened,
        AssetActionKind::SelectOpaque,
        ids,
        warnings,
    );
    Ok((asset, conflict))
}

/// The sentence of a package that cannot be compared by its fields.
pub open spec fn opaque_message() -> Seq<char> {
    "This file group cannot be compared field by field. Choose one Pak for the whole group."@
}

pub fn analyze_opaque_group(opened: &Vec<OpenedPak>, providers: &Vec<GroupProvider>) -> (result: Result<
    (AssetPlan, Conflict),
>)
    requires
        all_well_formed(opened@),
        providers@.len() > 0,
        forall|i: int|
            0 <= i < providers@.len() ==> (#[trigger] providers@[i]).input_index < opened@.len(),
    ensures
        same_selection(
            result,
            package_selection(
                views(opened@),
                views(providers@),
                ConflictKind::OpaquePackage,
                opaque_message(),
            ),
        ),
{
    analyze_package_selection_group(
        opened,
        providers,
        ConflictKind::OpaquePackage,
        "This file group cannot be compared field by field. Choose one Pak for the whole group.",
    )
}

/// The variants of a file that belongs to no package.
pub open spec fn loose_variants_from(
    done: Seq<VariantView>,
    opened: Seq<OpenedPakView>,
    providers: Seq<LooseProviderView>,
    at: int,
) -> Outcome<Seq<VariantView>>
    decreases providers.len() - at,
{
    if at >= providers.len() {
        Ok(done)
    } else {
        let input = opened[providers[at].input_index as int];
        match entry_at(input, providers[at].path) {
            Err(error) => Err(error),
            Ok(entry) => match canonical_digest(input, providers[at].path) {
                Err(error) => Err(error),
                Ok(digest) => loose_variants_from(
                    done.push(
                        whole_variant(
                            providers[0].path,
                            input.descriptor,
                            digest,
                            dec(entry.size as nat) + " bytes"@,
                            "whole-file"@,
                        ),
                    ),
                    opened,
                    providers,
                    at + 1,
                ),
            },
        }
    }
}

/// The conflict of a file that differs between its inputs.
pub open spec fn loose_conflict(opened: Seq<OpenedPakView>, providers: Seq<LooseProviderView>) -> Outcome<
    ConflictView,
> {
    match loose_variants_from(Seq::empty(), opened, providers, 0) {
        Err(error) => Err(error),
        Ok(variants) => Ok(
            conflict_of(
                ConflictKind::OpaquePackage,
                providers[0].path,
                None,
                None,
                "The same file has different contents. Choose which Pak to use."@,
                variants,
                true,
            ),
        ),
    }
}

#[verifier::loop_isolation(false)]
pub fn make_loose_conflict(opened: &Vec<OpenedPak>, providers: &Vec<LooseProvider>) -> (result: Result<
    Conflict,
>)
    requires
        all_well_formed(opened@),
        providers@.len() > 0,
        forall|i: int|
            0 <= i < providers@.len() ==> (#[trigger] providers@[i]).input_index < opened@.len(),
    ensures
        super::error::seen(result) == loose_conflict(views(opened@), views(providers@)),
{
    let ghost all = views(providers@);
    let ghost inputs = views(opened@);
    assert(all[0] == providers@[0]@);
    let path = providers[0].path.clone();
    let mut variants: Vec<Variant> = Vec::new();
    let mut at: usize = 0;
    assert(views(variants@) =~= Seq::<VariantView>::empty());
    while at < providers.len()
        invariant
            at <= providers@.len(),
            loose_variants_from(Seq::empty(), inputs, all, 0) == loose_variants_from(
                views(variants@),
                inputs,
                all,
                at as int,
            ),
        decreases providers.len() - at,
    {
        let provider = &providers[at];
        let index: usize = provider.input_index;
        proof {
            assert(all[at as int] == provider@);
            assert(inputs[index as int] == opened@[index as int]@);
            assert(opened@[index as int].well_formed());
        }
        let size: u64 = match inventory_entry(&opened[index], provider.path.as_str()) {
            Ok(entry) => entry.size,
            Err(error) => {
                return Err(error);
            },
        };
        let digest = match canonical_logical_sha256(&opened[index], provider.path.as_str()) {
            Ok(digest) => digest,
            Err(error) => {
                return Err(error);
            },
        };
        let variant = make_whole_variant(
            path.as_str(),
            &opened[index].descriptor,
            digest.as_str(),
            cat2(decimal(size).as_str(), " bytes"),
            "whole-file",
        );
        proof {
            views_push(variants@, variant);
        }
        variants.push(variant);
        at += 1;
    }
    Ok(
        make_conflict(
            ConflictKind::OpaquePackage,
            path.as_str(),
            None,
            None,
            "The same file has different contents. Choose which Pak to use.",
            variants,
            true,
        ),
    )
}

/// No two variants of a conflict have the same input and the same id.
pub open spec fn variants_differ(variants: Seq<VariantView>) -> bool {
    forall|i: int, j: int|
        0 <= i < j < variants.len() ==> (#[trigger] variants[i]).input_id != (
        #[trigger] variants[j]).input_id || variants[i].id != variants[j].id
}

/// A variant stands before another one: by its input, and in one input by its id.
pub open spec fn variant_before(left: VariantView, right: VariantView) -> bool {
    text_less(left.input_id, right.input_id) || (left.input_id == right.input_id && text_less(
        left.id,
        right.id,
    ))
}

/// The variants of a conflict stand in the order of their inputs, and those of one
/// input in the order of their ids.
pub proof fn variants_stand_in_order(variants: Seq<VariantView>)
    ensures
        forall|i: int, j: int|
            0 <= i < j < ordered_variants(variants).len() ==> !variant_before(
                #[trigger] ordered_variants(variants)[j],
                #[trigger] ordered_variants(variants)[i],
            ),
{
    let first = sorted(by_id(variants));
    let items = by_input(values(first));
    let found = sorted(items);
    sorted_is_an_ordering(by_id(variants));
    sorted_is_an_ordering(items);
    keyed_by_id(variants);
    let before = |left: (Seq<char>, VariantView), right: (Seq<char>, VariantView)|
        !text_less(right.1.id, left.1.id);
    assert forall|i: int, j: int|
        0 <= i < j < items.len() && items[i].0 == items[j].0 implies before(
        #[trigger] items[i],
        #[trigger] items[j],
    ) by {
        assert(items[i].1 == first[i].1 && items[j].1 == first[j].1);
        assert(!text_less(first[j].0, first[i].0));
    }
    sorting_is_stable(items, before);
    keyed_by_input(values(first));
    let all = ordered_variants(variants);
    assert forall|i: int, j: int| 0 <= i < j < all.len() implies !variant_before(
        #[trigger] all[j],
        #[trigger] all[i],
    ) by {
        assert(all[i] == found[i].1 && all[j] == found[j].1);
        assert(!text_less(found[j].0, found[i].0));
        if found[i].0 == found[j].0 {
            assert(before(found[i], found[j]));
        }
    }
}

proof fn keyed_by_id(variants: Seq<VariantView>)
    ensures
        forall|i: int|
            0 <= i < sorted(by_id(variants)).len() ==> (#[trigger] sorted(by_id(variants))[i]).0
                == sorted(by_id(variants))[i].1.id,
{
    broadcast use vstd::seq_lib::group_to_multiset_ensures;

    let all = by_id(variants);
    let found = sorted(all);
    sorted_is_an_ordering(all);
    assert forall|i: int| 0 <= i < found.len() implies (#[trigger] found[i]).0 == found[i].1.id by {
        assert(found.contains(found[i]));
        assert(all.to_multiset().count(found[i]) > 0);
        assert(all.contains(found[i]));
    }
}

proof fn keyed_by_input(variants: Seq<VariantView>)
    ensures
        forall|i: int|
            0 <= i < sorted(by_input(variants)).len() ==> (#[trigger] sorted(
                by_input(variants),
            )[i]).0 == sorted(by_input(variants))[i].1.input_id,
{
    broadcast use vstd::seq_lib::group_to_multiset_ensures;

    let all = by_input(variants);
    let found = sorted(all);
    sorted_is_an_ordering(all);
    assert forall|i: int| 0 <= i < found.len() implies (#[trigger] found[i]).0
        == found[i].1.input_id by {
        assert(found.contains(found[i]));
        assert(all.to_multiset().count(found[i]) > 0);
        assert(all.contains(found[i]));
    }
}

proof fn different_variants_stay_different(left: Seq<VariantView>, right: Seq<VariantView>)
    requires
        left.to_multiset() == right.to_multiset(),
        variants_differ(left),
    ensures
        variants_differ(right),
{
    broadcast use vstd::seq_lib::group_to_multiset_ensures;

    assert(left.no_duplicates()) by {
        assert forall|i: int, j: int| 0 <= i < left.len() && 0 <= j < left.len() && i
            != j implies left[i] != left[j] by {
            if i < j {
                assert(left[i].input_id != left[j].input_id || left[i].id != left[j].id);
            } else {
                assert(left[j].input_id != left[i].input_id || left[j].id != left[i].id);
            }
        }
    }
    left.lemma_multiset_has_no_duplicates();
    right.lemma_multiset_has_no_duplicates_conv();
    assert forall|i: int, j: int| 0 <= i < j < right.len() implies (#[trigger] right[i]).input_id
        != (#[trigger] right[j]).input_id || right[i].id != right[j].id by {
        assert(right.contains(right[i]) && right.contains(right[j]));
        assert(left.to_multiset().count(right[i]) > 0 && left.to_multiset().count(right[j]) > 0);
        assert(left.contains(right[i]) && left.contains(right[j]));
        let k = choose|k: int| 0 <= k < left.len() && left[k] == right[i];
        let m = choose|m: int| 0 <= m < left.len() && left[m] == right[j];
        assert(right[i] != right[j]);
        if k < m {
            assert(left[k].input_id != left[m].input_id || left[k].id != left[m].id);
        } else {
            assert(left[m].input_id != left[k].input_id || left[m].id != left[k].id);
        }
    }
}

/// Each of the variants stands before all that follow it.
pub open spec fn variants_ascend(variants: Seq<VariantView>) -> bool {
    forall|i: int, j: int|
        0 <= i < j < variants.len() ==> variant_before(
            #[trigger] variants[i],
            #[trigger] variants[j],
        )
}

proof fn ascending_variants_are_unique(left: Seq<VariantView>, right: Seq<VariantView>)
    requires
        variants_ascend(left),
        variants_ascend(right),
        left.to_multiset() == right.to_multiset(),
    ensures
        left == right,
    decreases left.len(),
{
    broadcast use vstd::seq_lib::group_to_multiset_ensures;

    assert(left.len() == right.len()) by {
        assert(left.to_multiset().len() == left.len());
        assert(right.to_multiset().len() == right.len());
    }
    if left.len() > 0 {
        let a = left[0];
        let b = right[0];
        assert(left.contains(a) && right.contains(b));
        assert(right.to_multiset().count(a) > 0);
        assert(left.to_multiset().count(b) > 0);
        assert(right.contains(a) && left.contains(b));
        let j = choose|j: int| 0 <= j < right.len() && right[j] == a;
        let i = choose|i: int| 0 <= i < left.len() && left[i] == b;
        text_order_is_strict_and_total(a.input_id, b.input_id, a.input_id);
        text_order_is_strict_and_total(a.id, b.id, a.id);
        text_order_is_strict_and_total(a.input_id, a.input_id, a.input_id);
        text_order_is_strict_and_total(a.id, a.id, a.id);
        if j > 0 {
            assert(variant_before(right[0], right[j]));
            if i > 0 {
                assert(variant_before(left[0], left[i]));
            }
        }
        assert(a == b);
        let more = left.skip(1);
        let others = right.skip(1);
        assert(left =~= seq![a] + more);
        assert(right =~= seq![a] + others);
        vstd::seq_lib::lemma_multiset_commutative(seq![a], more);
        vstd::seq_lib::lemma_multiset_commutative(seq![a], others);
        assert(more.to_multiset() =~= others.to_multiset()) by {
            assert forall|item: VariantView| more.to_multiset().count(item)
                == others.to_multiset().count(item) by {
                assert(left.to_multiset().count(item) == seq![a].to_multiset().count(item)
                    + more.to_multiset().count(item));
                assert(right.to_multiset().count(item) == seq![a].to_multiset().count(item)
                    + others.to_multiset().count(item));
            }
        }
        assert forall|i: int, j: int| 0 <= i < j < more.len() implies variant_before(
            #[trigger] more[i],
            #[trigger] more[j],
        ) by {
            assert(more[i] == left[i + 1] && more[j] == left[j + 1]);
        }
        assert forall|i: int, j: int| 0 <= i < j < others.len() implies variant_before(
            #[trigger] others[i],
            #[trigger] others[j],
        ) by {
            assert(others[i] == right[i + 1] && others[j] == right[j + 1]);
        }
        ascending_variants_are_unique(more, others);
    }
}

proof fn different_variants_ascend(variants: Seq<VariantView>)
    requires
        variants_differ(variants),
    ensures
        variants_ascend(ordered_variants(variants)),
{
    let all = ordered_variants(variants);
    ordering_keeps_the_variants(variants);
    different_variants_stay_different(variants, all);
    variants_stand_in_order(variants);
    assert forall|i: int, j: int| 0 <= i < j < all.len() implies variant_before(
        #[trigger] all[i],
        #[trigger] all[j],
    ) by {
        text_order_is_strict_and_total(all[i].input_id, all[j].input_id, all[i].input_id);
        text_order_is_strict_and_total(all[i].id, all[j].id, all[i].id);
        assert(!variant_before(all[j], all[i]));
        assert(all[i].input_id != all[j].input_id || all[i].id != all[j].id);
    }
}

/// A conflict, and with it the id under which it is settled, does not depend on the
/// order in which its variants were met.
pub proof fn conflicts_do_not_depend_on_the_order_of_variants(
    kind: ConflictKind,
    asset_path: Seq<char>,
    row_id: Option<i64>,
    group_id: Option<Seq<char>>,
    message: Seq<char>,
    left: Seq<VariantView>,
    right: Seq<VariantView>,
    blocking: bool,
)
    requires
        left.to_multiset() == right.to_multiset(),
        variants_differ(left),
    ensures
        conflict_of(kind, asset_path, row_id, group_id, message, left, blocking) == conflict_of(
            kind,
            asset_path,
            row_id,
            group_id,
            message,
            right,
            blocking,
        ),
{
    different_variants_stay_different(left, right);
    different_variants_ascend(left);
    different_variants_ascend(right);
    ordering_keeps_the_variants(left);
    ordering_keeps_the_variants(right);
    ascending_variants_are_unique(ordered_variants(left), ordered_variants(right));
}

} // verus!
