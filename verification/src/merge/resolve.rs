//! Choices: whether they settle a plan, and what they select.
use vstd::prelude::*;

use super::error::{seen, MergeError, MergeErrorView, Outcome, Result};
use super::ids::{eq_ignore_ascii_case, join, joined};
use super::opened::{OpenedPak, OpenedPakView};
use super::providers::{GroupProvider, GroupProviderView};
use super::types::{
    AssetPlan, AssetPlanView, Conflict, ConflictKind, ConflictView, MergePlan, MergePlanView,
    ResolutionSet, ResolutionSetView, ResolvedConflictRecord, ResolvedConflictRecordView,
    ResolvedPlan, ResolvedPlanView, Variant, VariantView, kind_text,
};
use crate::lists::{views, views_push, Duplicate};
use crate::ordered::{get, slot, slot_parts, OrderedMap};
use crate::text::{cat2, cat4, chars_of, dec, digit, same_but_case, same_text, signed_dec, texts, texts_push};

verus! {

/// The first conflict with an id.
pub open spec fn first_conflict(conflicts: Seq<ConflictView>, id: Seq<char>) -> Option<ConflictView>
    decreases conflicts.len(),
{
    if conflicts.len() == 0 {
        None
    } else if conflicts[0].id == id {
        Some(conflicts[0])
    } else {
        first_conflict(conflicts.skip(1), id)
    }
}

/// The last conflict with an id.
pub open spec fn last_conflict(conflicts: Seq<ConflictView>, id: Seq<char>) -> Option<ConflictView>
    decreases conflicts.len(),
{
    if conflicts.len() == 0 {
        None
    } else if conflicts.last().id == id {
        Some(conflicts.last())
    } else {
        last_conflict(conflicts.drop_last(), id)
    }
}

/// The first variant with an id.
pub open spec fn variant_with(variants: Seq<VariantView>, id: Seq<char>) -> Option<VariantView>
    decreases variants.len(),
{
    if variants.len() == 0 {
        None
    } else if variants[0].id == id {
        Some(variants[0])
    } else {
        variant_with(variants.skip(1), id)
    }
}

fn find_last_conflict<'b>(conflicts: &'b Vec<Conflict>, id: &str) -> (result: Option<&'b Conflict>)
    ensures
        match (result, last_conflict(views(conflicts@), id@)) {
            (Some(conflict), Some(wanted)) => conflict@ == wanted,
            (None, None) => true,
            _ => false,
        },
{
    let ghost all = views(conflicts@);
    let mut at: usize = conflicts.len();
    assert(all.take(at as int) =~= all);
    while at > 0
        invariant
            at <= conflicts@.len(),
            all == views(conflicts@),
            last_conflict(all, id@) == last_conflict(all.take(at as int), id@),
        decreases at,
    {
        at -= 1;
        proof {
            assert(all.take(at as int + 1).last() == conflicts@[at as int]@);
            assert(all.take(at as int + 1).drop_last() =~= all.take(at as int));
        }
        if same_text(conflicts[at].id.as_str(), id) {
            return Some(&conflicts[at]);
        }
    }
    None
}

fn find_variant<'b>(variants: &'b Vec<Variant>, id: &str) -> (result: Option<&'b Variant>)
    ensures
        match (result, variant_with(views(variants@), id@)) {
            (Some(variant), Some(wanted)) => variant@ == wanted,
            (None, None) => true,
            _ => false,
        },
{
    let ghost all = views(variants@);
    let mut at: usize = 0;
    assert(all.skip(0) =~= all);
    while at < variants.len()
        invariant
            at <= variants@.len(),
            all == views(variants@),
            variant_with(all, id@) == variant_with(all.skip(at as int), id@),
        decreases variants.len() - at,
    {
        proof {
            assert(all.skip(at as int)[0] == variants@[at as int]@);
            assert(all.skip(at as int).skip(1) =~= all.skip(at as int + 1));
        }
        if same_text(variants[at].id.as_str(), id) {
            return Some(&variants[at]);
        }
        at += 1;
    }
    None
}

/// Whether a conflict only informs.
pub open spec fn informational(kind: ConflictKind) -> bool {
    kind == ConflictKind::EncodingDrift || kind == ConflictKind::PotentialPlacementCollision
}

/// What is wrong with a choice.
pub open spec fn choice_fault(
    conflicts: Seq<ConflictView>,
    conflict_id: Seq<char>,
    variant_id: Seq<char>,
) -> Option<Seq<char>> {
    match last_conflict(conflicts, conflict_id) {
        None => Some("unknown conflict id "@ + conflict_id),
        Some(conflict) => if informational(conflict.kind) {
            Some(
                kind_text(conflict.kind) + " "@ + conflict.id
                    + " is informational and cannot be selected"@,
            )
        } else if variant_with(conflict.variants, variant_id) is None {
            Some(
                "choice "@ + variant_id + " is not available for conflict "@ + conflict_id,
            )
        } else {
            None
        },
    }
}

/// The first fault among choices.
pub open spec fn choices_fault(
    conflicts: Seq<ConflictView>,
    choices: Seq<(Seq<char>, Seq<char>)>,
) -> Option<Seq<char>>
    decreases choices.len(),
{
    if choices.len() == 0 {
        None
    } else {
        match choice_fault(conflicts, choices[0].0, choices[0].1) {
            Some(text) => Some(text),
            None => choices_fault(conflicts, choices.skip(1)),
        }
    }
}

fn find_choice_fault(conflicts: &Vec<Conflict>, conflict_id: &str, variant_id: &str) -> (result: Option<
    String,
>)
    ensures
        crate::text::text_view(result) == choice_fault(views(conflicts@), conflict_id@, variant_id@),
{
    match find_last_conflict(conflicts, conflict_id) {
        None => Some(cat2("unknown conflict id ", conflict_id)),
        Some(conflict) => {
            let informs = match conflict.kind {
                ConflictKind::EncodingDrift => true,
                ConflictKind::PotentialPlacementCollision => true,
                _ => false,
            };
            if informs {
                return Some(
                    cat4(
                        conflict.kind.name(),
                        " ",
                        conflict.id.as_str(),
                        " is informational and cannot be selected",
                    ),
                );
            }
            if find_variant(&conflict.variants, variant_id).is_none() {
                return Some(
                    cat4("choice ", variant_id, " is not available for conflict ", conflict_id),
                );
            }
            None
        },
    }
}

/// The ids of the conflicts that need a choice and have none.
pub open spec fn unresolved_ids(
    conflicts: Seq<ConflictView>,
    choices: Seq<(Seq<char>, Seq<char>)>,
) -> Seq<Seq<char>>
    decreases conflicts.len(),
{
    if conflicts.len() == 0 {
        Seq::empty()
    } else {
        let before = unresolved_ids(conflicts.drop_last(), choices);
        if conflicts.last().blocking && get(choices, conflicts.last().id) is None {
            before.push(conflicts.last().id)
        } else {
            before
        }
    }
}

impl MergePlan {
    /// The ids of the conflicts that need a choice and have none.
    pub fn unresolved_conflict_ids(&self, resolutions: &ResolutionSet) -> (result: Vec<String>)
        requires
            resolutions.choices.well_formed(),
        ensures
            texts(result@) == unresolved_ids(self@.conflicts, resolutions@.choices),
    {
        let ghost all = self@.conflicts;
        let mut ids: Vec<String> = Vec::new();
        let mut at: usize = 0;
        assert(texts(ids@) =~= unresolved_ids(all.take(0), resolutions@.choices));
        while at < self.conflicts.len()
            invariant
                at <= self.conflicts@.len(),
                all == views(self.conflicts@),
                resolutions.choices.well_formed(),
                texts(ids@) == unresolved_ids(all.take(at as int), resolutions@.choices),
            decreases self.conflicts.len() - at,
        {
            let conflict = &self.conflicts[at];
            proof {
                assert(all.take(at as int + 1).last() == conflict@);
                assert(all.take(at as int + 1).drop_last() =~= all.take(at as int));
            }
            if conflict.blocking && resolutions.choices.find(conflict.id.as_str()).is_none() {
                let id = conflict.id.clone();
                proof {
                    texts_push(ids@, id);
                }
                ids.push(id);
            }
            at += 1;
        }
        assert(all.take(at as int) =~= all);
        ids
    }
}

/// The choices for a plan: those that name no plan are taken to be for this one.
pub open spec fn adopted(plan: MergePlanView, resolutions: ResolutionSetView) -> ResolutionSetView {
    ResolutionSetView {
        plan_id: if resolutions.plan_id.len() == 0 {
            plan.plan_id
        } else {
            resolutions.plan_id
        },
        choices: resolutions.choices,
    }
}

/// Whether choices settle a plan.
pub open spec fn resolutions_allowed(plan: MergePlanView, resolutions: ResolutionSetView) -> Outcome<
    (),
> {
    let plan_id = adopted(plan, resolutions).plan_id;
    if plan_id != plan.plan_id {
        Err(
            MergeErrorView::InvalidResolution(
                "resolution plan_id "@ + plan_id + " does not match "@ + plan.plan_id,
            ),
        )
    } else {
        match choices_fault(plan.conflicts, resolutions.choices) {
            Some(text) => Err(MergeErrorView::InvalidResolution(text)),
            None => {
                let unresolved = unresolved_ids(plan.conflicts, resolutions.choices);
                if unresolved.len() > 0 {
                    Err(MergeErrorView::Unresolved(joined(unresolved, ", "@)))
                } else {
                    Ok(())
                }
            },
        }
    }
}

#[verifier::loop_isolation(false)]
fn check_choices(plan: &MergePlan, choices: &OrderedMap<String>) -> (result: Option<String>)
    ensures
        crate::text::text_view(result) == choices_fault(plan@.conflicts, choices@),
{
    let ghost all = choices@;
    let mut at: usize = 0;
    assert(all.skip(0) =~= all);
    while at < choices.items.len()
        invariant
            at <= choices.items@.len(),
            choices_fault(plan@.conflicts, all) == choices_fault(
                plan@.conflicts,
                all.skip(at as int),
            ),
        decreases choices.items.len() - at,
    {
        proof {
            assert(all.skip(at as int)[0] == (choices.items@[at as int].0@, choices.items@[at as int].1@));
            assert(all.skip(at as int).skip(1) =~= all.skip(at as int + 1));
        }
        let fault = find_choice_fault(
            &plan.conflicts,
            choices.items[at].0.as_str(),
            choices.items[at].1.as_str(),
        );
        if fault.is_some() {
            return fault;
        }
        at += 1;
    }
    None
}

/// Checks that choices settle a plan, and binds them to it.
pub fn validate_resolutions(plan: &MergePlan, resolutions: &mut ResolutionSet) -> (result: Result<()>)
    requires
        old(resolutions).choices.well_formed(),
    ensures
        final(resolutions)@ == adopted(plan@, old(resolutions)@),
        final(resolutions).choices == old(resolutions).choices,
        seen(result) == resolutions_allowed(plan@, old(resolutions)@),
{
    let empty = chars_of(resolutions.plan_id.as_str()).len() == 0;
    if empty {
        resolutions.plan_id = plan.plan_id.clone();
    }
    if !same_text(resolutions.plan_id.as_str(), plan.plan_id.as_str()) {
        return Err(
            MergeError::InvalidResolution(
                cat4(
                    "resolution plan_id ",
                    resolutions.plan_id.as_str(),
                    " does not match ",
                    plan.plan_id.as_str(),
                ),
            ),
        );
    }
    match check_choices(plan, &resolutions.choices) {
        Some(text) => {
            return Err(MergeError::InvalidResolution(text));
        },
        None => {},
    }
    let unresolved = plan.unresolved_conflict_ids(resolutions);
    assert(texts(unresolved@).len() == unresolved@.len());
    if unresolved.len() > 0 {
        return Err(MergeError::Unresolved(join(&unresolved, ", ")));
    }
    Ok(())
}

/// A plan with choices that settle it.
pub open spec fn resolved_of(plan: MergePlanView, resolutions: ResolutionSetView) -> Outcome<
    ResolvedPlanView,
> {
    match resolutions_allowed(plan, resolutions) {
        Err(error) => Err(error),
        Ok(_) => Ok(ResolvedPlanView { plan, resolutions: adopted(plan, resolutions) }),
    }
}

/// Joins a plan and the choices that settle it.
pub fn resolve(plan: MergePlan, resolutions: ResolutionSet) -> (result: Result<ResolvedPlan>)
    requires
        resolutions.choices.well_formed(),
    ensures
        seen(result) == resolved_of(plan@, resolutions@),
        result matches Ok(resolved) ==> resolved.resolutions.choices.well_formed(),
{
    let mut resolutions = resolutions;
    match validate_resolutions(&plan, &mut resolutions) {
        Ok(_) => {},
        Err(error) => {
            return Err(error);
        },
    }
    Ok(ResolvedPlan { plan, resolutions })
}

/// Whether every choice is for a known conflict that can be settled, and picks one
/// of its variants.
pub open spec fn choices_valid(
    conflicts: Seq<ConflictView>,
    choices: Seq<(Seq<char>, Seq<char>)>,
) -> bool {
    forall|i: int|
        0 <= i < choices.len() ==> (last_conflict(conflicts, (#[trigger] choices[i]).0) matches Some(
            conflict,
        ) && !informational(conflict.kind) && variant_with(conflict.variants, choices[i].1) is Some)
}

/// Whether every conflict that needs a choice has one.
pub open spec fn all_chosen(
    conflicts: Seq<ConflictView>,
    choices: Seq<(Seq<char>, Seq<char>)>,
) -> bool {
    forall|i: int|
        0 <= i < conflicts.len() && (#[trigger] conflicts[i]).blocking ==> get(
            choices,
            conflicts[i].id,
        ) is Some
}

proof fn no_fault_means_valid(
    conflicts: Seq<ConflictView>,
    choices: Seq<(Seq<char>, Seq<char>)>,
)
    ensures
        choices_fault(conflicts, choices) is None <==> choices_valid(conflicts, choices),
    decreases choices.len(),
{
    if choices.len() > 0 {
        let rest = choices.skip(1);
        no_fault_means_valid(conflicts, rest);
        if choices_valid(conflicts, choices) {
            assert(last_conflict(conflicts, choices[0].0) is Some);
            assert forall|i: int| 0 <= i < rest.len() implies (last_conflict(
                conflicts,
                (#[trigger] rest[i]).0,
            ) matches Some(conflict) && !informational(conflict.kind) && variant_with(
                conflict.variants,
                rest[i].1,
            ) is Some) by {
                assert(rest[i] == choices[i + 1]);
            }
        }
        if choices_fault(conflicts, choices) is None {
            assert forall|i: int| 0 <= i < choices.len() implies (last_conflict(
                conflicts,
                (#[trigger] choices[i]).0,
            ) matches Some(conflict) && !informational(conflict.kind) && variant_with(
                conflict.variants,
                choices[i].1,
            ) is Some) by {
                if i > 0 {
                    assert(choices[i] == rest[i - 1]);
                }
            }
        }
    }
}

proof fn none_unresolved_means_chosen(
    conflicts: Seq<ConflictView>,
    choices: Seq<(Seq<char>, Seq<char>)>,
)
    ensures
        unresolved_ids(conflicts, choices).len() == 0 <==> all_chosen(conflicts, choices),
    decreases conflicts.len(),
{
    if conflicts.len() > 0 {
        let rest = conflicts.drop_last();
        none_unresolved_means_chosen(rest, choices);
        if all_chosen(conflicts, choices) {
            assert forall|i: int| 0 <= i < rest.len() && (#[trigger] rest[i]).blocking implies get(
                choices,
                rest[i].id,
            ) is Some by {
                assert(rest[i] == conflicts[i]);
            }
            assert(conflicts.last() == conflicts[conflicts.len() - 1]);
        }
        if unresolved_ids(conflicts, choices).len() == 0 {
            assert forall|i: int|
                0 <= i < conflicts.len() && (#[trigger] conflicts[i]).blocking implies get(
                choices,
                conflicts[i].id,
            ) is Some by {
                if i < rest.len() {
                    assert(conflicts[i] == rest[i]);
                }
            }
        }
    }
}

/// Choices settle a plan exactly when they are for this plan or for none in
/// particular, each of them is valid, and every conflict that needs one has one.
pub proof fn settled_exactly_when_every_conflict_is(
    plan: MergePlanView,
    resolutions: ResolutionSetView,
)
    ensures
        resolutions_allowed(plan, resolutions) is Ok <==> (resolutions.plan_id.len() == 0
            || resolutions.plan_id == plan.plan_id) && choices_valid(
            plan.conflicts,
            resolutions.choices,
        ) && all_chosen(plan.conflicts, resolutions.choices),
{
    no_fault_means_valid(plan.conflicts, resolutions.choices);
    none_unresolved_means_chosen(plan.conflicts, resolutions.choices);
}

/// A conflict that needs a choice and has none keeps a plan from being resolved.
pub proof fn unresolved_conflicts_block(
    plan: MergePlanView,
    resolutions: ResolutionSetView,
    at: int,
)
    requires
        0 <= at < plan.conflicts.len(),
        plan.conflicts[at].blocking,
        get(resolutions.choices, plan.conflicts[at].id) is None,
    ensures
        resolved_of(plan, resolutions) is Err,
{
    settled_exactly_when_every_conflict_is(plan, resolutions);
}

/// Settling a plan changes neither the plan nor the choices, and settling it
/// again with the choices that came out gives the same.
pub proof fn resolving_again_changes_nothing(plan: MergePlanView, resolutions: ResolutionSetView)
    ensures
        resolved_of(plan, resolutions) matches Ok(resolved) ==> resolved.plan == plan
            && resolved.resolutions.choices == resolutions.choices && resolved_of(
            resolved.plan,
            resolved.resolutions,
        ) == Ok::<ResolvedPlanView, MergeErrorView>(resolved),
{
}

/// The input that the choice for a conflict selects.
pub open spec fn selected_input(conflict: ConflictView, choices: Seq<(Seq<char>, Seq<char>)>) -> Outcome<
    Seq<char>,
> {
    match get(choices, conflict.id) {
        None => Err(MergeErrorView::Unresolved("missing choice for "@ + conflict.id)),
        Some(selected) => match variant_with(conflict.variants, selected) {
            Some(variant) => Ok(variant.input_id),
            None => Err(
                MergeErrorView::InvalidResolution(
                    "the selected choice "@ + selected + " is missing from "@ + conflict.id,
                ),
            ),
        },
    }
}

pub fn selected_input_id(conflict: &Conflict, resolutions: &ResolutionSet) -> (result: Result<String>)
    requires
        resolutions.choices.well_formed(),
    ensures
        seen(result) == selected_input(conflict@, resolutions@.choices),
{
    match resolutions.choices.find(conflict.id.as_str()) {
        None => Err(
            MergeError::Unresolved(cat2("missing choice for ", conflict.id.as_str())),
        ),
        Some(at) => {
            let selected = &resolutions.choices.items[at].1;
            match find_variant(&conflict.variants, selected.as_str()) {
                Some(variant) => Ok(variant.input_id.clone()),
                None => Err(
                    MergeError::InvalidResolution(
                        cat4(
                            "the selected choice ",
                            selected.as_str(),
                            " is missing from ",
                            conflict.id.as_str(),
                        ),
                    ),
                ),
            }
        },
    }
}

/// The ids of the conflicts of a plan are all different.
pub open spec fn ids_differ(conflicts: Seq<ConflictView>) -> bool {
    forall|i: int, j: int|
        0 <= i < j < conflicts.len() ==> (#[trigger] conflicts[i]).id != (
        #[trigger] conflicts[j]).id
}

proof fn last_is_the_only_one(conflicts: Seq<ConflictView>, at: int)
    requires
        ids_differ(conflicts),
        0 <= at < conflicts.len(),
    ensures
        last_conflict(conflicts, conflicts[at].id) == Some(conflicts[at]),
    decreases conflicts.len(),
{
    if at < conflicts.len() - 1 {
        assert(conflicts[at].id != conflicts[conflicts.len() - 1].id);
        let rest = conflicts.drop_last();
        assert forall|i: int, j: int| 0 <= i < j < rest.len() implies (#[trigger] rest[i]).id != (
        #[trigger] rest[j]).id by {
            assert(rest[i] == conflicts[i] && rest[j] == conflicts[j]);
        }
        assert(rest[at] == conflicts[at]);
        last_is_the_only_one(rest, at);
    }
}

/// Once a plan is settled, the choice for every conflict that needs one selects
/// the input of one of its variants.
pub proof fn settled_conflicts_have_an_input(
    plan: MergePlanView,
    resolutions: ResolutionSetView,
    at: int,
)
    requires
        ids_differ(plan.conflicts),
        resolutions_allowed(plan, resolutions) is Ok,
        0 <= at < plan.conflicts.len(),
        plan.conflicts[at].blocking,
    ensures
        selected_input(plan.conflicts[at], resolutions.choices) is Ok,
{
    settled_exactly_when_every_conflict_is(plan, resolutions);
    last_is_the_only_one(plan.conflicts, at);
    let id = plan.conflicts[at].id;
    assert(get(resolutions.choices, id) is Some);
    slot_parts(resolutions.choices, id);
    let place = slot(resolutions.choices, id);
    assert(resolutions.choices[place].0 == id);
}

/// The conflict that decides over an asset.
pub open spec fn asset_conflict(plan: MergePlanView, asset: AssetPlanView) -> Outcome<ConflictView> {
    if asset.conflict_ids.len() == 0 {
        Err(
            MergeErrorView::InvalidPlan(
                asset.virtual_path + " requires a choice but has no conflict record"@,
            ),
        )
    } else {
        match first_conflict(plan.conflicts, asset.conflict_ids[0]) {
            Some(conflict) => Ok(conflict),
            None => Err(
                MergeErrorView::InvalidResolution("missing conflict "@ + asset.conflict_ids[0]),
            ),
        }
    }
}

pub fn conflict_for_asset<'b>(plan: &'b MergePlan, asset: &AssetPlan) -> (result: Result<&'b Conflict>)
    ensures
        match (result, asset_conflict(plan@, asset@)) {
            (Ok(conflict), Ok(wanted)) => conflict@ == wanted,
            (Err(error), Err(wanted)) => error@ == wanted,
            _ => false,
        },
{
    if asset.conflict_ids.len() == 0 {
        return Err(
            MergeError::InvalidPlan(
                cat2(
                    asset.virtual_path.as_str(),
                    " requires a choice but has no conflict record",
                ),
            ),
        );
    }
    let id = asset.conflict_ids[0].as_str();
    let ghost all = views(plan.conflicts@);
    assert(asset@.conflict_ids[0] == id@);
    let mut at: usize = 0;
    assert(all.skip(0) =~= all);
    while at < plan.conflicts.len()
        invariant
            at <= plan.conflicts@.len(),
            all == views(plan.conflicts@),
            asset@.conflict_ids.len() > 0,
            asset@.conflict_ids[0] == id@,
            first_conflict(all, id@) == first_conflict(all.skip(at as int), id@),
        decreases plan.conflicts.len() - at,
    {
        proof {
            assert(all.skip(at as int)[0] == plan.conflicts@[at as int]@);
            assert(all.skip(at as int).skip(1) =~= all.skip(at as int + 1));
        }
        if same_text(plan.conflicts[at].id.as_str(), id) {
            return Ok(&plan.conflicts[at]);
        }
        at += 1;
    }
    Err(MergeError::InvalidResolution(cat2("missing conflict ", id)))
}

/// The first provider of a package that is the input with an id.
pub open spec fn provider_with(
    providers: Seq<GroupProviderView>,
    opened: Seq<OpenedPakView>,
    input_id: Seq<char>,
    at: int,
) -> Option<int>
    decreases providers.len() - at,
{
    if at >= providers.len() {
        None
    } else if opened[providers[at].input_index as int].descriptor.id == input_id {
        Some(at)
    } else {
        provider_with(providers, opened, input_id, at + 1)
    }
}

fn find_provider(providers: &Vec<GroupProvider>, opened: &Vec<OpenedPak>, input_id: &str) -> (result:
    Option<usize>)
    requires
        forall|i: int|
            0 <= i < providers@.len() ==> (#[trigger] providers@[i]).input_index < opened@.len(),
    ensures
        match (result, provider_with(views(providers@), views(opened@), input_id@, 0)) {
            (Some(at), Some(wanted)) => at == wanted && at < providers@.len(),
            (None, None) => true,
            _ => false,
        },
{
    let ghost all = views(providers@);
    let ghost inputs = views(opened@);
    let mut at: usize = 0;
    while at < providers.len()
        invariant
            at <= providers@.len(),
            all == views(providers@),
            inputs == views(opened@),
            forall|i: int|
                0 <= i < providers@.len() ==> (#[trigger] providers@[i]).input_index < opened@.len(),
            provider_with(all, inputs, input_id@, 0) == provider_with(
                all,
                inputs,
                input_id@,
                at as int,
            ),
        decreases providers.len() - at,
    {
        let index: usize = providers[at].input_index;
        proof {
            assert(all[at as int] == providers@[at as int]@);
            assert(inputs[index as int] == opened@[index as int]@);
        }
        if same_text(opened[index].descriptor.id.as_str(), input_id) {
            return Some(at);
        }
        at += 1;
    }
    None
}

/// The provider that stands for the input with an id.
pub open spec fn selected_provider(
    providers: Seq<GroupProviderView>,
    opened: Seq<OpenedPakView>,
    input_id: Seq<char>,
) -> Outcome<GroupProviderView> {
    match provider_with(providers, opened, input_id, 0) {
        Some(at) => Ok(providers[at]),
        None => Err(
            MergeErrorView::InvalidResolution("input "@ + input_id + " has no selected package"@),
        ),
    }
}

pub fn provider_by_input_id<'b>(
    providers: &'b Vec<GroupProvider>,
    opened: &Vec<OpenedPak>,
    input_id: &str,
) -> (result: Result<&'b GroupProvider>)
    requires
        forall|i: int|
            0 <= i < providers@.len() ==> (#[trigger] providers@[i]).input_index < opened@.len(),
    ensures
        match (result, selected_provider(views(providers@), views(opened@), input_id@)) {
            (Ok(provider), Ok(wanted)) => provider@ == wanted && provider.input_index
                < opened@.len(),
            (Err(error), Err(wanted)) => error@ == wanted,
            _ => false,
        },
{
    match find_provider(providers, opened, input_id) {
        Some(at) => {
            assert(views(providers@)[at as int] == providers@[at as int]@);
            Ok(&providers[at])
        },
        None => Err(
            MergeError::InvalidResolution(
                crate::text::cat3("input ", input_id, " has no selected package"),
            ),
        ),
    }
}

/// The first provider that is one of the inputs that an asset prefers.
pub open spec fn preferred_from(
    ids: Seq<Seq<char>>,
    providers: Seq<GroupProviderView>,
    opened: Seq<OpenedPakView>,
) -> Option<int>
    decreases ids.len(),
{
    if ids.len() == 0 {
        None
    } else {
        match provider_with(providers, opened, ids[0], 0) {
            Some(at) => Some(at),
            None => preferred_from(ids.skip(1), providers, opened),
        }
    }
}

/// The provider from which an asset is taken.
pub open spec fn asset_donor(
    asset: AssetPlanView,
    providers: Seq<GroupProviderView>,
    opened: Seq<OpenedPakView>,
) -> Outcome<GroupProviderView> {
    match preferred_from(asset.donor_input_ids, providers, opened) {
        Some(at) => Ok(providers[at]),
        None => if providers.len() > 0 {
            Ok(providers[0])
        } else {
            Err(MergeErrorView::InvalidPlan(asset.virtual_path + " has no input provider"@))
        },
    }
}

pub fn donor_for_asset<'b>(
    asset: &AssetPlan,
    providers: &'b Vec<GroupProvider>,
    opened: &Vec<OpenedPak>,
) -> (result: Result<&'b GroupProvider>)
    requires
        forall|i: int|
            0 <= i < providers@.len() ==> (#[trigger] providers@[i]).input_index < opened@.len(),
    ensures
        match (result, asset_donor(asset@, views(providers@), views(opened@))) {
            (Ok(provider), Ok(wanted)) => provider@ == wanted && provider.input_index
                < opened@.len(),
            (Err(error), Err(wanted)) => error@ == wanted,
            _ => false,
        },
{
    let ghost all = views(providers@);
    let ghost inputs = views(opened@);
    let ghost ids = texts(asset.donor_input_ids@);
    let mut at: usize = 0;
    assert(ids.skip(0) =~= ids);
    while at < asset.donor_input_ids.len()
        invariant
            at <= asset.donor_input_ids@.len(),
            all == views(providers@),
            inputs == views(opened@),
            ids == texts(asset.donor_input_ids@),
            ids == asset@.donor_input_ids,
            forall|i: int|
                0 <= i < providers@.len() ==> (#[trigger] providers@[i]).input_index < opened@.len(),
            preferred_from(ids, all, inputs) == preferred_from(ids.skip(at as int), all, inputs),
        decreases asset.donor_input_ids.len() - at,
    {
        proof {
            assert(ids.skip(at as int)[0] == asset.donor_input_ids@[at as int]@);
            assert(ids.skip(at as int).skip(1) =~= ids.skip(at as int + 1));
        }
        match find_provider(providers, opened, asset.donor_input_ids[at].as_str()) {
            Some(found) => {
                assert(all[found as int] == providers@[found as int]@);
                return Ok(&providers[found]);
            },
            None => {},
        }
        at += 1;
    }
    if providers.len() > 0 {
        assert(all[0] == providers@[0]@);
        return Ok(&providers[0]);
    }
    Err(
        MergeError::InvalidPlan(
            cat2(asset.virtual_path.as_str(), " has no input provider"),
        ),
    )
}

/// The first variant of an input.
pub open spec fn variant_of_input(variants: Seq<VariantView>, input_id: Seq<char>) -> Option<
    VariantView,
>
    decreases variants.len(),
{
    if variants.len() == 0 {
        None
    } else if variants[0].input_id == input_id {
        Some(variants[0])
    } else {
        variant_of_input(variants.skip(1), input_id)
    }
}

fn find_variant_of_input<'b>(variants: &'b Vec<Variant>, input_id: &str) -> (result: Option<&'b Variant>)
    ensures
        match (result, variant_of_input(views(variants@), input_id@)) {
            (Some(variant), Some(wanted)) => variant@ == wanted,
            (None, None) => true,
            _ => false,
        },
{
    let ghost all = views(variants@);
    let mut at: usize = 0;
    assert(all.skip(0) =~= all);
    while at < variants.len()
        invariant
            at <= variants@.len(),
            all == views(variants@),
            variant_of_input(all, input_id@) == variant_of_input(all.skip(at as int), input_id@),
        decreases variants.len() - at,
    {
        proof {
            assert(all.skip(at as int)[0] == variants@[at as int]@);
            assert(all.skip(at as int).skip(1) =~= all.skip(at as int + 1));
        }
        if same_text(variants[at].input_id.as_str(), input_id) {
            return Some(&variants[at]);
        }
        at += 1;
    }
    None
}

/// The variant that is kept without a choice where only the storage differs: that
/// of the base Pak, or else the first.
pub open spec fn automatic_variant(conflict: ConflictView, carrier_id: Seq<char>) -> Option<Seq<char>> {
    if !conflict.blocking && conflict.kind == ConflictKind::EncodingDrift {
        match variant_of_input(conflict.variants, carrier_id) {
            Some(variant) => Some(variant.id),
            None => if conflict.variants.len() > 0 {
                Some(conflict.variants[0].id)
            } else {
                None
            },
        }
    } else {
        None
    }
}

/// How a conflict was settled.
pub open spec fn conflict_record(
    conflict: ConflictView,
    choices: Seq<(Seq<char>, Seq<char>)>,
    carrier_id: Seq<char>,
) -> ResolvedConflictRecordView {
    let explicit = get(choices, conflict.id);
    let selected = match explicit {
        Some(id) => Some(id),
        None => automatic_variant(conflict, carrier_id),
    };
    ResolvedConflictRecordView {
        conflict_id: conflict.id,
        selected_variant: match selected {
            Some(id) => variant_with(conflict.variants, id),
            None => None,
        },
        automatic: explicit is None && selected is Some,
    }
}

pub open spec fn conflict_records(
    conflicts: Seq<ConflictView>,
    choices: Seq<(Seq<char>, Seq<char>)>,
    carrier_id: Seq<char>,
) -> Seq<ResolvedConflictRecordView> {
    conflicts.map_values(|conflict: ConflictView| conflict_record(conflict, choices, carrier_id))
}

fn make_conflict_record(conflict: &Conflict, resolutions: &ResolutionSet, carrier_id: &str) -> (result:
    ResolvedConflictRecord)
    requires
        resolutions.choices.well_formed(),
    ensures
        result@ == conflict_record(conflict@, resolutions@.choices, carrier_id@),
{
    let explicit = resolutions.choices.find(conflict.id.as_str());
    let selected: Option<String> = match explicit {
        Some(at) => Some(resolutions.choices.items[at].1.clone()),
        None => {
            let drifts = match conflict.kind {
                ConflictKind::EncodingDrift => true,
                _ => false,
            };
            if !conflict.blocking && drifts {
                match find_variant_of_input(&conflict.variants, carrier_id) {
                    Some(variant) => Some(variant.id.clone()),
                    None => {
                        if conflict.variants.len() > 0 {
                            assert(views(conflict.variants@)[0] == conflict.variants@[0]@);
                            Some(conflict.variants[0].id.clone())
                        } else {
                            None
                        }
                    },
                }
            } else {
                None
            }
        },
    };
    let automatic = explicit.is_none() && selected.is_some();
    let selected_variant = match &selected {
        Some(id) => match find_variant(&conflict.variants, id.as_str()) {
            Some(variant) => Some(variant.copy()),
            None => None,
        },
        None => None,
    };
    ResolvedConflictRecord { conflict_id: conflict.id.clone(), selected_variant, automatic }
}

/// How the conflicts of a plan were settled.
pub fn build_report_conflict_records(
    plan: &MergePlan,
    resolutions: &ResolutionSet,
    carrier_input_id: &str,
) -> (result: Vec<ResolvedConflictRecord>)
    requires
        resolutions.choices.well_formed(),
    ensures
        views(result@) == conflict_records(
            plan@.conflicts,
            resolutions@.choices,
            carrier_input_id@,
        ),
{
    let ghost all = conflict_records(plan@.conflicts, resolutions@.choices, carrier_input_id@);
    let mut records: Vec<ResolvedConflictRecord> = Vec::new();
    let mut at: usize = 0;
    assert(views(records@) =~= all.take(0));
    while at < plan.conflicts.len()
        invariant
            at <= plan.conflicts@.len() == all.len(),
            resolutions.choices.well_formed(),
            all == conflict_records(plan@.conflicts, resolutions@.choices, carrier_input_id@),
            views(records@) == all.take(at as int),
        decreases plan.conflicts.len() - at,
    {
        let record = make_conflict_record(&plan.conflicts[at], resolutions, carrier_input_id);
        proof {
            views_push(records@, record);
            assert(plan@.conflicts[at as int] == plan.conflicts@[at as int]@);
            assert(all[at as int] == record@);
            assert(all.take(at as int + 1) =~= all.take(at as int).push(record@));
        }
        records.push(record);
        at += 1;
    }
    assert(all.take(at as int) =~= all);
    records
}

/// The number that decimal digits stand for.
pub open spec fn digits_value(digits: Seq<char>) -> int
    decreases digits.len(),
{
    if digits.len() == 0 {
        0
    } else {
        digits_value(digits.drop_last()) * 10 + (digits.last() as int - '0' as int)
    }
}

/// Whether a text is made of decimal digits, at least one.
pub open spec fn is_digits(text: Seq<char>) -> bool {
    text.len() > 0 && forall|i: int| 0 <= i < text.len() ==> '0' <= #[trigger] text[i] <= '9'
}

pub open spec fn in_row_range(value: int) -> Option<i64> {
    if i64::MIN <= value <= i64::MAX {
        Some(value as i64)
    } else {
        None
    }
}

/// The row id that a text stands for: digits, with or without a sign before them.
pub open spec fn row_id_of(text: Seq<char>) -> Option<i64> {
    if is_digits(text) {
        in_row_range(digits_value(text))
    } else if text.len() > 0 && text[0] == '-' && is_digits(text.skip(1)) {
        in_row_range(-digits_value(text.skip(1)))
    } else if text.len() > 0 && text[0] == '+' && is_digits(text.skip(1)) {
        in_row_range(digits_value(text.skip(1)))
    } else {
        None
    }
}

proof fn numerals_are_read_back(value: nat)
    ensures
        is_digits(dec(value)),
        digits_value(dec(value)) == value,
    decreases value,
{
    let text = dec(value);
    if value < 10 {
        assert(text.last() == digit(value as int));
        assert(text.drop_last() =~= Seq::<char>::empty());
        assert(digits_value(text.drop_last()) == 0);
    } else {
        numerals_are_read_back(value / 10);
        assert(text.drop_last() =~= dec(value / 10));
        assert forall|i: int| 0 <= i < text.len() implies '0' <= #[trigger] text[i] <= '9' by {
            if i < text.len() - 1 {
                assert(text[i] == dec(value / 10)[i]);
            }
        }
    }
}

/// The id of a row is read back from its numeral.
pub proof fn row_ids_are_read_back(id: i64)
    ensures
        row_id_of(signed_dec(id as int)) == Some(id),
{
    let text = signed_dec(id as int);
    if id < 0 {
        numerals_are_read_back((-id) as nat);
        assert(text[0] == '-');
        assert(text.skip(1) =~= dec((-id) as nat));
    } else {
        numerals_are_read_back(id as nat);
    }
}

/// The value of digits from `from` on, or nothing where they are none or exceed
/// every row id.
fn read_digits(chars: &Vec<char>, from: usize) -> (result: Option<u64>)
    requires
        from <= chars@.len(),
    ensures
        match result {
            Some(value) => is_digits(chars@.skip(from as int)) && value == digits_value(
                chars@.skip(from as int),
            ) && value <= 0x8000_0000_0000_0000,
            None => !is_digits(chars@.skip(from as int)) || digits_value(chars@.skip(from as int))
                > 0x8000_0000_0000_0000,
        },
{
    let ghost all = chars@.skip(from as int);
    if from == chars.len() {
        return None;
    }
    let mut value: u64 = 0;
    let mut over = false;
    let mut at: usize = from;
    assert(all.take(0) =~= Seq::<char>::empty());
    while at < chars.len()
        invariant
            from <= at <= chars@.len(),
            from < chars@.len(),
            all == chars@.skip(from as int),
            forall|i: int| 0 <= i < at - from ==> '0' <= #[trigger] all[i] <= '9',
            over ==> digits_value(all.take(at - from)) > 0x8000_0000_0000_0000,
            !over ==> value == digits_value(all.take(at - from)) && value <= 0x8000_0000_0000_0000,
        decreases chars.len() - at,
    {
        let ch = chars[at];
        assert(all[at - from] == ch);
        if ch < '0' || ch > '9' {
            assert(!is_digits(all));
            return None;
        }
        let digit: u64 = ch as u64 - '0' as u64;
        proof {
            assert(all.take(at - from + 1).drop_last() =~= all.take(at - from));
            assert(all.take(at - from + 1).last() == ch);
        }
        if !over {
            if value > 922_337_203_685_477_580 {
                over = true;
            } else {
                value = value * 10 + digit;
                if value > 0x8000_0000_0000_0000 {
                    over = true;
                }
            }
        }
        at += 1;
    }
    assert(all.take(at - from) =~= all);
    if over {
        None
    } else {
        Some(value)
    }
}

/// The row id that a text stands for.
pub fn parse_row_id(text: &str) -> (result: Option<i64>)
    ensures
        result == row_id_of(text@),
{
    let chars = chars_of(text);
    if chars.len() == 0 {
        return None;
    }
    proof {
        assert(text@.skip(0) =~= text@);
        if text@[0] == '-' || text@[0] == '+' {
            assert(!is_digits(text@));
        }
    }
    if chars[0] == '-' {
        match read_digits(&chars, 1) {
            Some(value) => {
                if value == 0x8000_0000_0000_0000 {
                    Some(i64::MIN)
                } else {
                    Some(-(value as i64))
                }
            },
            None => None,
        }
    } else {
        let from: usize = if chars[0] == '+' {
            1
        } else {
            0
        };
        match read_digits(&chars, from) {
            Some(value) => {
                if value == 0x8000_0000_0000_0000 {
                    None
                } else {
                    Some(value as i64)
                }
            },
            None => None,
        }
    }
}

/// Whether a conflict is about a group of a row of an asset.
pub open spec fn concerns(
    conflict: ConflictView,
    asset_path: Seq<char>,
    row_id: i64,
    group_id: Seq<char>,
) -> bool {
    &&& same_but_case(conflict.asset_path, asset_path)
    &&& conflict.row_id matches Some(text) && row_id_of(text) == Some(row_id)
    &&& conflict.group_id == Some(group_id)
}

/// The last conflict about a group of a row.
pub open spec fn row_conflict(
    conflicts: Seq<ConflictView>,
    asset_path: Seq<char>,
    row_id: i64,
    group_id: Seq<char>,
) -> Option<ConflictView>
    decreases conflicts.len(),
{
    if conflicts.len() == 0 {
        None
    } else if concerns(conflicts.last(), asset_path, row_id, group_id) {
        Some(conflicts.last())
    } else {
        row_conflict(conflicts.drop_last(), asset_path, row_id, group_id)
    }
}

/// Where the conflicts of the rows of an asset stand in a plan.
#[derive(Debug)]
pub struct AssetConflictIndex {
    pub asset_path: String,
    /// For each such conflict its row and its place.
    pub places: Vec<(i64, usize)>,
}

/// Whether a conflict is about a row of an asset.
pub open spec fn concerns_row(conflict: ConflictView, asset_path: Seq<char>) -> Option<i64> {
    if same_but_case(conflict.asset_path, asset_path) && conflict.group_id is Some {
        match conflict.row_id {
            Some(text) => row_id_of(text),
            None => None,
        }
    } else {
        None
    }
}

/// The places of the conflicts of an asset's rows.
pub open spec fn places_of(conflicts: Seq<ConflictView>, asset_path: Seq<char>) -> Seq<(i64, usize)>
    decreases conflicts.len(),
{
    if conflicts.len() == 0 {
        Seq::empty()
    } else {
        let before = places_of(conflicts.drop_last(), asset_path);
        match concerns_row(conflicts.last(), asset_path) {
            Some(row_id) => before.push((row_id, (conflicts.len() - 1) as usize)),
            None => before,
        }
    }
}

impl AssetConflictIndex {
    /// The index lists the conflicts of the asset's rows in a plan.
    pub open spec fn indexes(&self, plan: MergePlanView) -> bool {
        self.places@ == places_of(plan.conflicts, self.asset_path@)
    }
}

/// Whether a conflict is about a row of an asset, and which.
fn row_concerned(conflict: &Conflict, asset_path: &str) -> (result: Option<i64>)
    ensures
        result == concerns_row(conflict@, asset_path@),
{
    if !eq_ignore_ascii_case(conflict.asset_path.as_str(), asset_path)
        || conflict.group_id.is_none() {
        return None;
    }
    match &conflict.row_id {
        Some(text) => parse_row_id(text.as_str()),
        None => None,
    }
}

/// Finds the conflicts of the rows of an asset.
pub fn build_asset_conflict_index(plan: &MergePlan, asset_path: &str) -> (result: AssetConflictIndex)
    ensures
        result.asset_path@ == asset_path@,
        result.indexes(plan@),
{
    let ghost all = plan@.conflicts;
    let mut places: Vec<(i64, usize)> = Vec::new();
    let mut at: usize = 0;
    assert(all.take(0) =~= Seq::<ConflictView>::empty());
    while at < plan.conflicts.len()
        invariant
            at <= plan.conflicts@.len() == all.len(),
            all == views(plan.conflicts@),
            places@ == places_of(all.take(at as int), asset_path@),
        decreases plan.conflicts.len() - at,
    {
        proof {
            assert(all.take(at as int + 1).last() == plan.conflicts@[at as int]@);
            assert(all.take(at as int + 1).drop_last() =~= all.take(at as int));
        }
        match row_concerned(&plan.conflicts[at], asset_path) {
            Some(row_id) => {
                places.push((row_id, at));
            },
            None => {},
        }
        at += 1;
    }
    assert(all.take(at as int) =~= all);
    AssetConflictIndex { asset_path: asset_path.to_owned(), places }
}

/// The last of the listed conflicts that is about a group of a row.
spec fn listed_conflict(
    conflicts: Seq<ConflictView>,
    places: Seq<(i64, usize)>,
    row_id: i64,
    group_id: Seq<char>,
) -> Option<ConflictView>
    decreases places.len(),
{
    if places.len() == 0 {
        None
    } else if places.last().0 == row_id && conflicts[places.last().1 as int].group_id == Some(
        group_id,
    ) {
        Some(conflicts[places.last().1 as int])
    } else {
        listed_conflict(conflicts, places.drop_last(), row_id, group_id)
    }
}

proof fn listed_is_the_last(
    conflicts: Seq<ConflictView>,
    part: Seq<ConflictView>,
    asset_path: Seq<char>,
    row_id: i64,
    group_id: Seq<char>,
)
    requires
        part.len() <= conflicts.len() <= usize::MAX,
        part == conflicts.take(part.len() as int),
    ensures
        listed_conflict(conflicts, places_of(part, asset_path), row_id, group_id) == row_conflict(
            part,
            asset_path,
            row_id,
            group_id,
        ),
        forall|i: int|
            0 <= i < places_of(part, asset_path).len() ==> (#[trigger] places_of(
                part,
                asset_path,
            )[i]).1 < part.len(),
    decreases part.len(),
{
    if part.len() > 0 {
        let rest = part.drop_last();
        assert(rest =~= conflicts.take(rest.len() as int));
        listed_is_the_last(conflicts, rest, asset_path, row_id, group_id);
        let before = places_of(rest, asset_path);
        let after = places_of(part, asset_path);
        let last = part.last();
        assert(conflicts[part.len() - 1] == last);
        match concerns_row(last, asset_path) {
            Some(found) => {
                assert(after.drop_last() =~= before);
                assert(after.last() == (found, (part.len() - 1) as usize));
                assert forall|i: int| 0 <= i < after.len() implies (#[trigger] after[i]).1
                    < part.len() by {
                    if i < before.len() {
                        assert(after[i] == before[i]);
                    }
                }
            },
            None => {
                assert forall|i: int| 0 <= i < after.len() implies (#[trigger] after[i]).1
                    < part.len() by {
                    assert(after[i] == before[i]);
                }
            },
        }
    }
}

/// The conflict about a group of a row.
pub fn indexed_conflict<'b>(
    plan: &'b MergePlan,
    index: &AssetConflictIndex,
    row_id: i64,
    group_id: &str,
) -> (result: Option<&'b Conflict>)
    requires
        index.indexes(plan@),
    ensures
        match (result, row_conflict(plan@.conflicts, index.asset_path@, row_id, group_id@)) {
            (Some(conflict), Some(wanted)) => conflict@ == wanted,
            (None, None) => true,
            _ => false,
        },
{
    let ghost all = plan@.conflicts;
    let count: usize = plan.conflicts.len();
    proof {
        assert(all.take(all.len() as int) =~= all);
        listed_is_the_last(all, all, index.asset_path@, row_id, group_id@);
    }
    let mut at: usize = index.places.len();
    assert(index.places@.take(at as int) =~= index.places@);
    while at > 0
        invariant
            at <= index.places@.len(),
            all == plan@.conflicts,
            index.indexes(plan@),
            forall|i: int|
                0 <= i < index.places@.len() ==> (#[trigger] index.places@[i]).1 < all.len(),
            listed_conflict(all, index.places@, row_id, group_id@) == row_conflict(
                all,
                index.asset_path@,
                row_id,
                group_id@,
            ),
            listed_conflict(all, index.places@, row_id, group_id@) == listed_conflict(
                all,
                index.places@.take(at as int),
                row_id,
                group_id@,
            ),
        decreases at,
    {
        at -= 1;
        let place: (i64, usize) = index.places[at];
        proof {
            assert(index.places@.take(at as int + 1).last() == place);
            assert(index.places@.take(at as int + 1).drop_last() =~= index.places@.take(at as int));
            assert(index.places@[at as int].1 < all.len());
            assert(all[place.1 as int] == plan.conflicts@[place.1 as int]@);
        }
        if place.0 == row_id {
            match &plan.conflicts[place.1].group_id {
                Some(found) => {
                    if same_text(found.as_str(), group_id) {
                        return Some(&plan.conflicts[place.1]);
                    }
                },
                None => {},
            }
        }
    }
    None
}

} // verus!
