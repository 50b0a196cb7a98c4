//! Placements of characters that may collide: rows of different ids that claim
//! the same place.
use vstd::prelude::*;

use super::conflicts::{conflict_of, make_conflict};
use super::database::{
    field_from, indexed_row, map_get, parsed_well, row_from, DatabaseRow, NodeKind,
    ParsedDbProvider, ParsedDbProviderView,
};
use super::ids::{folded, join, joined, sort_key, stable_id, stable_id_of};
use super::opened::{OpenedPak, OpenedPakView};
use super::row_ids::{enter_id, id_texts, ids_ascend, list_id_texts, with_ids};
use super::types::{
    Conflict, ConflictKind, ConflictView, InputDescriptor, InputDescriptorView, Provenance,
    ProvenanceView, Variant, VariantView,
};
use super::uasset::{last_component, last_part};
use crate::lists::{views, views_push};
use crate::ordered::text_order_is_strict_and_total;
use crate::text::{
    ascii_lowercase, cat2, cat4, cat5, chars_of, clone_text, hex_byte, hex_upper, holds_part,
    same_text, signed_dec, signed_decimal, starts_with, text_before, text_holds, text_less,
    text_starts_with, text_view, texts, texts_push, to_ascii_lowercase, trim_text, trimmed_text,
};

verus! {

/// Whether a database lists the placements of characters.
pub open spec fn lists_placements(asset_path: Seq<char>) -> bool {
    holds_part(folded(asset_path), "local/database/npc/"@) && starts_with(
        last_part(folded(asset_path)),
        "npcsetlist"@,
    )
}

pub fn is_npc_set_list_asset(asset_path: &str) -> (result: bool)
    ensures
        result == lists_placements(asset_path@),
{
    let path = sort_key(asset_path);
    text_holds(path.as_str(), "local/database/npc/") && text_starts_with(
        last_component(path.as_str()).as_str(),
        "npcsetlist",
    )
}

/// What names a place: a map with an appearance, or else a label.
#[derive(Debug)]
pub enum NpcPlacementLogicalKey {
    MapAppear { map_id: i64, appear_label: String },
    Label(String),
}

#[verifier::ext_equal]
pub enum PlacementKeyView {
    MapAppear { map_id: i64, appear_label: Seq<char> },
    Label(Seq<char>),
}

impl View for NpcPlacementLogicalKey {
    type V = PlacementKeyView;

    open spec fn view(&self) -> PlacementKeyView {
        match *self {
            NpcPlacementLogicalKey::MapAppear { map_id, appear_label } => {
                PlacementKeyView::MapAppear { map_id, appear_label: appear_label@ }
            },
            NpcPlacementLogicalKey::Label(label) => PlacementKeyView::Label(label@),
        }
    }
}

pub open spec fn key_stable_text(key: PlacementKeyView) -> Seq<char> {
    match key {
        PlacementKeyView::MapAppear { map_id, appear_label } => "map="@ + signed_dec(
            map_id as int,
        ) + ";appear="@ + appear_label,
        PlacementKeyView::Label(label) => "label="@ + label,
    }
}

pub open spec fn key_display_text(key: PlacementKeyView) -> Seq<char> {
    match key {
        PlacementKeyView::MapAppear { map_id, appear_label } => "m_MapID="@ + signed_dec(
            map_id as int,
        ) + ", m_AppearLabel="@ + appear_label,
        PlacementKeyView::Label(label) => "fallback m_label="@ + label,
    }
}

/// The order of places: those on maps first, by map and label.
pub open spec fn key_less(left: PlacementKeyView, right: PlacementKeyView) -> bool {
    match (left, right) {
        (
            PlacementKeyView::MapAppear { map_id: a, appear_label: left_label },
            PlacementKeyView::MapAppear { map_id: b, appear_label: right_label },
        ) => a < b || (a == b && text_less(left_label, right_label)),
        (PlacementKeyView::MapAppear { .. }, PlacementKeyView::Label(_)) => true,
        (PlacementKeyView::Label(_), PlacementKeyView::MapAppear { .. }) => false,
        (PlacementKeyView::Label(left_label), PlacementKeyView::Label(right_label)) => text_less(
            left_label,
            right_label,
        ),
    }
}

impl NpcPlacementLogicalKey {
    pub fn stable_text(&self) -> (result: String)
        ensures
            result@ == key_stable_text(self@),
    {
        match self {
            NpcPlacementLogicalKey::MapAppear { map_id, appear_label } => cat4(
                "map=",
                signed_decimal(*map_id).as_str(),
                ";appear=",
                appear_label.as_str(),
            ),
            NpcPlacementLogicalKey::Label(label) => cat2("label=", label.as_str()),
        }
    }

    pub fn display_text(&self) -> (result: String)
        ensures
            result@ == key_display_text(self@),
    {
        match self {
            NpcPlacementLogicalKey::MapAppear { map_id, appear_label } => cat4(
                "m_MapID=",
                signed_decimal(*map_id).as_str(),
                ", m_AppearLabel=",
                appear_label.as_str(),
            ),
            NpcPlacementLogicalKey::Label(label) => cat2("fallback m_label=", label.as_str()),
        }
    }

    fn before(&self, other: &NpcPlacementLogicalKey) -> (result: bool)
        ensures
            result == key_less(self@, other@),
    {
        match self {
            NpcPlacementLogicalKey::MapAppear { map_id, appear_label } => match other {
                NpcPlacementLogicalKey::MapAppear {
                    map_id: other_map,
                    appear_label: other_label,
                } => *map_id < *other_map || (*map_id == *other_map && text_before(
                    appear_label.as_str(),
                    other_label.as_str(),
                )),
                NpcPlacementLogicalKey::Label(_) => true,
            },
            NpcPlacementLogicalKey::Label(label) => match other {
                NpcPlacementLogicalKey::MapAppear { .. } => false,
                NpcPlacementLogicalKey::Label(other_label) => text_before(
                    label.as_str(),
                    other_label.as_str(),
                ),
            },
        }
    }

    fn same(&self, other: &NpcPlacementLogicalKey) -> (result: bool)
        ensures
            result == (self@ == other@),
    {
        match self {
            NpcPlacementLogicalKey::MapAppear { map_id, appear_label } => match other {
                NpcPlacementLogicalKey::MapAppear {
                    map_id: other_map,
                    appear_label: other_label,
                } => *map_id == *other_map && same_text(
                    appear_label.as_str(),
                    other_label.as_str(),
                ),
                NpcPlacementLogicalKey::Label(_) => false,
            },
            NpcPlacementLogicalKey::Label(label) => match other {
                NpcPlacementLogicalKey::MapAppear { .. } => false,
                NpcPlacementLogicalKey::Label(other_label) => same_text(
                    label.as_str(),
                    other_label.as_str(),
                ),
            },
        }
    }
}

/// Who is placed, and what is said.
#[derive(Debug, Clone, Copy, PartialEq, Eq, Structural)]
pub struct NpcPlacementBinding {
    pub owner_npc: i64,
    pub talk_id: i64,
}

/// A row that claims a place.
#[derive(Debug, Clone, Copy, PartialEq, Eq, Structural)]
pub struct NpcPlacementOccurrence {
    pub provider_local: usize,
    pub row_id: i64,
    pub binding: NpcPlacementBinding,
}

/// The integer in a field.
pub open spec fn integer_in(row: DatabaseRow, name: Seq<char>) -> Option<i64> {
    match field_from(row.fields@, name) {
        Some(node) => match node.kind {
            NodeKind::Signed(value) => Some(value),
            NodeKind::Unsigned(value) => if value <= i64::MAX {
                Some(value as i64)
            } else {
                None
            },
            _ => None,
        },
        None => None,
    }
}

pub fn npc_integer_field(row: &DatabaseRow, field: &str) -> (result: Option<i64>)
    ensures
        result == integer_in(*row, field@),
{
    match map_get(row, field) {
        Some(node) => match &node.kind {
            NodeKind::Signed(value) => Some(*value),
            NodeKind::Unsigned(value) => if *value <= i64::MAX as u64 {
                Some(*value as i64)
            } else {
                None
            },
            _ => None,
        },
        None => None,
    }
}

/// The text in a field, trimmed and folded, where something is left of it.
pub open spec fn label_in(row: DatabaseRow, name: Seq<char>) -> Option<Seq<char>> {
    match field_from(row.fields@, name) {
        Some(node) => match node.kind {
            NodeKind::Text(text) => if trimmed_text(text@).len() > 0 {
                Some(ascii_lowercase(trimmed_text(text@)))
            } else {
                None
            },
            _ => None,
        },
        None => None,
    }
}

pub fn npc_string_field(row: &DatabaseRow, field: &str) -> (result: Option<String>)
    ensures
        text_view(result) == label_in(*row, field@),
{
    match map_get(row, field) {
        Some(node) => match &node.kind {
            NodeKind::Text(text) => {
                let trimmed = trim_text(text.as_str());
                if chars_of(trimmed.as_str()).len() > 0 {
                    Some(to_ascii_lowercase(trimmed.as_str()))
                } else {
                    None
                }
            },
            _ => None,
        },
        None => None,
    }
}

/// The place that a row claims.
pub open spec fn key_in(row: DatabaseRow) -> Option<PlacementKeyView> {
    match (integer_in(row, "m_MapID"@), label_in(row, "m_AppearLabel"@)) {
        (Some(map_id), Some(appear_label)) if map_id > 0 => Some(
            PlacementKeyView::MapAppear { map_id, appear_label },
        ),
        _ => match label_in(row, "m_label"@) {
            Some(label) => Some(PlacementKeyView::Label(label)),
            None => None,
        },
    }
}

pub fn npc_placement_logical_key(row: &DatabaseRow) -> (result: Option<NpcPlacementLogicalKey>)
    ensures
        match (result, key_in(*row)) {
            (Some(key), Some(wanted)) => key@ == wanted,
            (None, None) => true,
            _ => false,
        },
{
    let map_id = npc_integer_field(row, "m_MapID");
    let appear_label = npc_string_field(row, "m_AppearLabel");
    match (map_id, appear_label) {
        (Some(map_id), Some(appear_label)) => {
            if map_id > 0 {
                return Some(NpcPlacementLogicalKey::MapAppear { map_id, appear_label });
            }
        },
        _ => {},
    }
    match npc_string_field(row, "m_label") {
        Some(label) => Some(NpcPlacementLogicalKey::Label(label)),
        None => None,
    }
}

/// Whom a row places, where it names both a character and its talk.
pub open spec fn binding_in(row: DatabaseRow) -> Option<NpcPlacementBinding> {
    match (integer_in(row, "m_OwnerNPC"@), integer_in(row, "m_TalkID"@)) {
        (Some(owner_npc), Some(talk_id)) if owner_npc > 0 && talk_id > 0 => Some(
            NpcPlacementBinding { owner_npc, talk_id },
        ),
        _ => None,
    }
}

pub fn npc_placement_binding(row: &DatabaseRow) -> (result: Option<NpcPlacementBinding>)
    ensures
        result == binding_in(*row),
{
    match npc_integer_field(row, "m_OwnerNPC") {
        Some(owner_npc) => {
            if owner_npc <= 0 {
                return None;
            }
            match npc_integer_field(row, "m_TalkID") {
                Some(talk_id) => {
                    if talk_id <= 0 {
                        return None;
                    }
                    Some(NpcPlacementBinding { owner_npc, talk_id })
                },
                None => None,
            }
        },
        None => None,
    }
}

/// The order of claims: by provider, then by row, then by what is placed.
pub open spec fn claim_less(left: NpcPlacementOccurrence, right: NpcPlacementOccurrence) -> bool {
    left.provider_local < right.provider_local || (left.provider_local == right.provider_local && (
    left.row_id < right.row_id || (left.row_id == right.row_id && (left.binding.owner_npc
        < right.binding.owner_npc || (left.binding.owner_npc == right.binding.owner_npc
        && left.binding.talk_id < right.binding.talk_id)))))
}

fn claim_before(left: NpcPlacementOccurrence, right: NpcPlacementOccurrence) -> (result: bool)
    ensures
        result == claim_less(left, right),
{
    left.provider_local < right.provider_local || (left.provider_local == right.provider_local && (
    left.row_id < right.row_id || (left.row_id == right.row_id && (left.binding.owner_npc
        < right.binding.owner_npc || (left.binding.owner_npc == right.binding.owner_npc
        && left.binding.talk_id < right.binding.talk_id)))))
}

/// How many leading claims stand before a claim.
pub open spec fn claim_slot(claims: Seq<NpcPlacementOccurrence>, claim: NpcPlacementOccurrence) -> int
    decreases claims.len(),
{
    if claims.len() == 0 || !claim_less(claims[0], claim) {
        0
    } else {
        1 + claim_slot(claims.skip(1), claim)
    }
}

/// The claims with one more, in their order.
pub open spec fn with_claim(claims: Seq<NpcPlacementOccurrence>, claim: NpcPlacementOccurrence) -> Seq<
    NpcPlacementOccurrence,
> {
    claims.insert(claim_slot(claims, claim), claim)
}

proof fn claim_slot_is(claims: Seq<NpcPlacementOccurrence>, claim: NpcPlacementOccurrence, at: int)
    requires
        0 <= at <= claims.len(),
        forall|i: int| 0 <= i < at ==> claim_less(#[trigger] claims[i], claim),
        at < claims.len() ==> !claim_less(claims[at], claim),
    ensures
        claim_slot(claims, claim) == at,
    decreases claims.len(),
{
    if at > 0 {
        assert(claim_less(claims[0], claim));
        let rest = claims.skip(1);
        assert forall|i: int| 0 <= i < at - 1 implies claim_less(#[trigger] rest[i], claim) by {
            assert(rest[i] == claims[i + 1]);
        }
        if at < claims.len() {
            assert(rest[at - 1] == claims[at]);
        }
        claim_slot_is(rest, claim, at - 1);
    }
}

fn insert_claim(claims: &mut Vec<NpcPlacementOccurrence>, claim: NpcPlacementOccurrence)
    ensures
        final(claims)@ == with_claim(old(claims)@, claim),
{
    let mut at: usize = 0;
    while at < claims.len() && claim_before(claims[at], claim)
        invariant
            at <= claims@.len(),
            claims@ == old(claims)@,
            forall|i: int| 0 <= i < at ==> claim_less(#[trigger] claims@[i], claim),
        decreases claims.len() - at,
    {
        at += 1;
    }
    proof {
        claim_slot_is(claims@, claim, at as int);
    }
    claims.insert(at, claim);
}

/// The claims on one place.
#[derive(Debug)]
pub struct Placement {
    pub key: NpcPlacementLogicalKey,
    pub claims: Vec<NpcPlacementOccurrence>,
}

#[verifier::ext_equal]
pub struct PlacementView {
    pub key: PlacementKeyView,
    pub claims: Seq<NpcPlacementOccurrence>,
}

impl View for Placement {
    type V = PlacementView;

    open spec fn view(&self) -> PlacementView {
        PlacementView { key: self.key@, claims: self.claims@ }
    }
}

/// How many leading places stand before a place.
pub open spec fn place_slot(places: Seq<PlacementView>, key: PlacementKeyView) -> int
    decreases places.len(),
{
    if places.len() == 0 || !key_less(places[0].key, key) {
        0
    } else {
        1 + place_slot(places.skip(1), key)
    }
}

/// The places with one more claim.
pub open spec fn claimed(
    places: Seq<PlacementView>,
    key: PlacementKeyView,
    claim: NpcPlacementOccurrence,
) -> Seq<PlacementView> {
    let at = place_slot(places, key);
    if at < places.len() && places[at].key == key {
        places.update(at, PlacementView { key, claims: with_claim(places[at].claims, claim) })
    } else {
        places.insert(at, PlacementView { key, claims: seq![claim] })
    }
}

proof fn place_slot_is(places: Seq<PlacementView>, key: PlacementKeyView, at: int)
    requires
        0 <= at <= places.len(),
        forall|i: int| 0 <= i < at ==> key_less((#[trigger] places[i]).key, key),
        at < places.len() ==> !key_less(places[at].key, key),
    ensures
        place_slot(places, key) == at,
    decreases places.len(),
{
    if at > 0 {
        assert(key_less(places[0].key, key));
        let rest = places.skip(1);
        assert forall|i: int| 0 <= i < at - 1 implies key_less((#[trigger] rest[i]).key, key) by {
            assert(rest[i] == places[i + 1]);
        }
        if at < places.len() {
            assert(rest[at - 1] == places[at]);
        }
        place_slot_is(rest, key, at - 1);
    }
}

fn enter_claim(places: &mut Vec<Placement>, key: NpcPlacementLogicalKey, claim: NpcPlacementOccurrence)
    ensures
        views(final(places)@) == claimed(views(old(places)@), key@, claim),
{
    let ghost before = views(places@);
    let mut at: usize = 0;
    while at < places.len() && places[at].key.before(&key)
        invariant
            at <= places@.len(),
            places@ == old(places)@,
            before == views(places@),
            forall|i: int| 0 <= i < at ==> key_less((#[trigger] before[i]).key, key@),
        decreases places.len() - at,
    {
        assert(before[at as int] == places@[at as int]@);
        at += 1;
    }
    proof {
        if at < places@.len() {
            assert(before[at as int] == places@[at as int]@);
        }
        place_slot_is(before, key@, at as int);
    }
    if at < places.len() && places[at].key.same(&key) {
        let mut claims: Vec<NpcPlacementOccurrence> = Vec::new();
        let mut index: usize = 0;
        while index < places[at].claims.len()
            invariant
                index <= places@[at as int].claims@.len(),
                at < places@.len(),
                places@ == old(places)@,
                claims@ == places@[at as int].claims@.take(index as int),
            decreases places@[at as int].claims@.len() - index,
        {
            claims.push(places[at].claims[index]);
            assert(claims@ =~= places@[at as int].claims@.take(index as int + 1));
            index += 1;
        }
        assert(claims@ =~= places@[at as int].claims@);
        insert_claim(&mut claims, claim);
        let ghost raised = Placement { key, claims };
        places.set(at, Placement { key, claims });
        assert(views(places@) =~= before.update(at as int, raised@));
    } else {
        let mut claims: Vec<NpcPlacementOccurrence> = Vec::new();
        claims.push(claim);
        assert(claims@ =~= seq![claim]);
        let ghost added = Placement { key, claims };
        places.insert(at, Placement { key, claims });
        assert(views(places@) =~= before.insert(at as int, added@));
    }
}

/// The place that the row with an id claims, and its claim.
pub open spec fn claim_of_row(provider_local: usize, asset_rows: Seq<DatabaseRow>, row_id: i64) -> Option<
    (PlacementKeyView, NpcPlacementOccurrence),
> {
    match row_from(asset_rows, row_id) {
        Some(row) => match (binding_in(row), key_in(row)) {
            (Some(binding), Some(key)) => Some(
                (key, NpcPlacementOccurrence { provider_local, row_id, binding }),
            ),
            _ => None,
        },
        None => None,
    }
}

/// The places that the rows of one provider claim, added to those known.
pub open spec fn claims_of_rows(
    places: Seq<PlacementView>,
    provider_local: usize,
    asset_rows: Seq<DatabaseRow>,
    rest: Seq<DatabaseRow>,
) -> Seq<PlacementView>
    decreases rest.len(),
{
    if rest.len() == 0 {
        places
    } else {
        let next = match claim_of_row(provider_local, asset_rows, rest[0].id) {
            Some((key, claim)) => claimed(places, key, claim),
            None => places,
        };
        claims_of_rows(next, provider_local, asset_rows, rest.skip(1))
    }
}

/// The places that the rows of all providers claim.
pub open spec fn all_claims_from(
    places: Seq<PlacementView>,
    parsed: Seq<ParsedDbProviderView>,
    at: int,
) -> Seq<PlacementView>
    decreases parsed.len() - at,
{
    if at >= parsed.len() {
        places
    } else {
        all_claims_from(
            claims_of_rows(places, at as usize, parsed[at].asset.rows@, parsed[at].asset.rows@),
            parsed,
            at + 1,
        )
    }
}

fn enter_provider(places: &mut Vec<Placement>, provider_local: usize, provider: &ParsedDbProvider)
    ensures
        views(final(places)@) == claims_of_rows(
            views(old(places)@),
            provider_local,
            provider.asset.rows@,
            provider.asset.rows@,
        ),
{
    let ghost start = views(places@);
    let ghost rows = provider.asset.rows@;
    let mut at: usize = 0;
    assert(rows.skip(0) =~= rows);
    while at < provider.asset.rows.len()
        invariant
            at <= provider.asset.rows@.len(),
            rows == provider.asset.rows@,
            claims_of_rows(start, provider_local, rows, rows) == claims_of_rows(
                views(places@),
                provider_local,
                rows,
                rows.skip(at as int),
            ),
        decreases provider.asset.rows.len() - at,
    {
        proof {
            assert(rows.skip(at as int)[0] == rows[at as int]);
            assert(rows.skip(at as int).skip(1) =~= rows.skip(at as int + 1));
        }
        let row_id: i64 = provider.asset.rows[at].id;
        match indexed_row(&provider.asset, row_id) {
            Some(row) => match npc_placement_binding(row) {
                Some(binding) => match npc_placement_logical_key(row) {
                    Some(key) => {
                        enter_claim(
                            places,
                            key,
                            NpcPlacementOccurrence { provider_local, row_id, binding },
                        );
                    },
                    None => {},
                },
                None => {},
            },
            None => {},
        }
        at += 1;
    }
}

fn collect_placements(parsed: &Vec<ParsedDbProvider>) -> (result: Vec<Placement>)
    ensures
        views(result@) == all_claims_from(Seq::empty(), views(parsed@), 0),
{
    let ghost all = views(parsed@);
    let mut places: Vec<Placement> = Vec::new();
    let mut at: usize = 0;
    assert(views(places@) =~= Seq::<PlacementView>::empty());
    while at < parsed.len()
        invariant
            at <= parsed@.len(),
            all == views(parsed@),
            all_claims_from(Seq::empty(), all, 0) == all_claims_from(views(places@), all, at as int),
        decreases parsed.len() - at,
    {
        assert(all[at as int] == parsed@[at as int]@);
        enter_provider(&mut places, at, &parsed[at]);
        at += 1;
    }
    places
}

proof fn key_order_is_strict_and_total(
    a: PlacementKeyView,
    b: PlacementKeyView,
    c: PlacementKeyView,
)
    ensures
        !key_less(a, a),
        key_less(a, b) || a == b || key_less(b, a),
        !(key_less(a, b) && key_less(b, a)),
        key_less(a, b) && key_less(b, c) ==> key_less(a, c),
        a == b ==> !key_less(a, b),
{
    let first = label_of(a);
    let second = label_of(b);
    let third = label_of(c);
    text_order_is_strict_and_total(first, second, third);
    text_order_is_strict_and_total(first, first, first);
    text_order_is_strict_and_total(second, first, second);
    text_order_is_strict_and_total(first, second, first);
}

/// The label of a place.
pub open spec fn label_of(key: PlacementKeyView) -> Seq<char> {
    match key {
        PlacementKeyView::MapAppear { appear_label, .. } => appear_label,
        PlacementKeyView::Label(label) => label,
    }
}

/// Places stand in the order of their keys, each key once.
pub open spec fn places_ascend(places: Seq<PlacementView>) -> bool {
    forall|i: int, j: int|
        0 <= i < j < places.len() ==> key_less(
            (#[trigger] places[i]).key,
            (#[trigger] places[j]).key,
        )
}

/// The claims on every place stand in their order.
pub open spec fn claims_in_order(claims: Seq<NpcPlacementOccurrence>) -> bool {
    forall|i: int, j: int|
        0 <= i < j < claims.len() ==> !claim_less(#[trigger] claims[j], #[trigger] claims[i])
}

pub open spec fn all_claims_in_order(places: Seq<PlacementView>) -> bool {
    forall|i: int| 0 <= i < places.len() ==> claims_in_order((#[trigger] places[i]).claims)
}

/// A claim stands under a place.
pub open spec fn holds_claim(
    places: Seq<PlacementView>,
    key: PlacementKeyView,
    claim: NpcPlacementOccurrence,
) -> bool {
    exists|i: int|
        0 <= i < places.len() && (#[trigger] places[i]).key == key && places[i].claims.contains(
            claim,
        )
}

proof fn place_slot_parts(places: Seq<PlacementView>, key: PlacementKeyView)
    ensures
        0 <= place_slot(places, key) <= places.len(),
        forall|i: int|
            0 <= i < place_slot(places, key) ==> key_less((#[trigger] places[i]).key, key),
        place_slot(places, key) < places.len() ==> !key_less(
            places[place_slot(places, key)].key,
            key,
        ),
    decreases places.len(),
{
    if places.len() > 0 && key_less(places[0].key, key) {
        let rest = places.skip(1);
        place_slot_parts(rest, key);
        let at = place_slot(places, key);
        assert forall|i: int| 0 <= i < at implies key_less((#[trigger] places[i]).key, key) by {
            if i > 0 {
                assert(rest[i - 1] == places[i]);
            }
        }
        if at < places.len() {
            assert(rest[at - 1] == places[at]);
        }
    }
}

proof fn one_more_claim(
    claims: Seq<NpcPlacementOccurrence>,
    claim: NpcPlacementOccurrence,
    other: NpcPlacementOccurrence,
)
    requires
        claims_in_order(claims),
    ensures
        claims_in_order(with_claim(claims, claim)),
        with_claim(claims, claim).contains(other) <==> claims.contains(other) || other == claim,
{
    claim_slot_parts(claims, claim);
    let at = claim_slot(claims, claim);
    let after = with_claim(claims, claim);
    assert forall|i: int, j: int| 0 <= i < j < after.len() implies !claim_less(
        #[trigger] after[j],
        #[trigger] after[i],
    ) by {
        if j < at {
            assert(after[i] == claims[i] && after[j] == claims[j]);
        } else if j == at {
            assert(after[i] == claims[i]);
        } else if i < at {
            assert(after[i] == claims[i] && after[j] == claims[j - 1]);
        } else if i == at {
            assert(after[j] == claims[j - 1]);
            if at < j - 1 {
                assert(!claim_less(claims[j - 1], claims[at]));
            }
        } else {
            assert(after[i] == claims[i - 1] && after[j] == claims[j - 1]);
        }
    }
    if claims.contains(other) {
        let k = choose|k: int| 0 <= k < claims.len() && claims[k] == other;
        if k < at {
            assert(after[k] == other);
        } else {
            assert(after[k + 1] == other);
        }
    }
    assert(after[at] == claim);
    if after.contains(other) {
        let k = choose|k: int| 0 <= k < after.len() && after[k] == other;
        if k < at {
            assert(claims[k] == other);
        } else if k > at {
            assert(claims[k - 1] == other);
        }
    }
}

proof fn claim_slot_parts(claims: Seq<NpcPlacementOccurrence>, claim: NpcPlacementOccurrence)
    ensures
        0 <= claim_slot(claims, claim) <= claims.len(),
        forall|i: int|
            0 <= i < claim_slot(claims, claim) ==> claim_less(#[trigger] claims[i], claim),
        claim_slot(claims, claim) < claims.len() ==> !claim_less(
            claims[claim_slot(claims, claim)],
            claim,
        ),
    decreases claims.len(),
{
    if claims.len() > 0 && claim_less(claims[0], claim) {
        let rest = claims.skip(1);
        claim_slot_parts(rest, claim);
        let at = claim_slot(claims, claim);
        assert forall|i: int| 0 <= i < at implies claim_less(#[trigger] claims[i], claim) by {
            if i > 0 {
                assert(rest[i - 1] == claims[i]);
            }
        }
        if at < claims.len() {
            assert(rest[at - 1] == claims[at]);
        }
    }
}

proof fn claimed_places(
    places: Seq<PlacementView>,
    key: PlacementKeyView,
    claim: NpcPlacementOccurrence,
    other: PlacementKeyView,
    sought: NpcPlacementOccurrence,
)
    requires
        places_ascend(places),
        all_claims_in_order(places),
    ensures
        places_ascend(claimed(places, key, claim)),
        all_claims_in_order(claimed(places, key, claim)),
        holds_claim(claimed(places, key, claim), other, sought) <==> holds_claim(
            places,
            other,
            sought,
        ) || (other == key && sought == claim),
{
    place_slot_parts(places, key);
    let at = place_slot(places, key);
    let after = claimed(places, key, claim);
    if at < places.len() && places[at].key == key {
        let grown = PlacementView { key, claims: with_claim(places[at].claims, claim) };
        assert(after == places.update(at, grown));
        one_more_claim(places[at].claims, claim, sought);
        assert forall|i: int, j: int| 0 <= i < j < after.len() implies key_less(
            (#[trigger] after[i]).key,
            (#[trigger] after[j]).key,
        ) by {
            assert(key_less(places[i].key, places[j].key));
        }
        assert forall|i: int| 0 <= i < after.len() implies claims_in_order(
            (#[trigger] after[i]).claims,
        ) by {
            if i != at {
                assert(after[i] == places[i]);
            }
        }
        if holds_claim(places, other, sought) {
            let i = choose|i: int|
                0 <= i < places.len() && (#[trigger] places[i]).key == other
                    && places[i].claims.contains(sought);
            assert(after[i].key == other && after[i].claims.contains(sought));
        }
        if other == key && sought == claim {
            assert(after[at].key == other && after[at].claims.contains(sought));
        }
        if holds_claim(after, other, sought) {
            let i = choose|i: int|
                0 <= i < after.len() && (#[trigger] after[i]).key == other
                    && after[i].claims.contains(sought);
            if i == at {
                if sought != claim {
                    assert(places[i].claims.contains(sought) && places[i].key == other);
                }
            } else {
                assert(places[i] == after[i]);
            }
        }
    } else {
        let added = PlacementView { key, claims: seq![claim] };
        assert(after == places.insert(at, added));
        assert forall|i: int, j: int| 0 <= i < j < after.len() implies key_less(
            (#[trigger] after[i]).key,
            (#[trigger] after[j]).key,
        ) by {
            if j < at {
                assert(after[i] == places[i] && after[j] == places[j]);
            } else if j == at {
                assert(after[i] == places[i]);
            } else if i < at {
                assert(after[i] == places[i] && after[j] == places[j - 1]);
            } else if i == at {
                assert(after[j] == places[j - 1]);
                key_order_is_strict_and_total(key, places[at].key, places[j - 1].key);
                if at < j - 1 {
                    assert(key_less(places[at].key, places[j - 1].key));
                }
            } else {
                assert(after[i] == places[i - 1] && after[j] == places[j - 1]);
            }
        }
        assert forall|i: int| 0 <= i < after.len() implies claims_in_order(
            (#[trigger] after[i]).claims,
        ) by {
            if i < at {
                assert(after[i] == places[i]);
            } else if i > at {
                assert(after[i] == places[i - 1]);
            }
        }
        if holds_claim(places, other, sought) {
            let i = choose|i: int|
                0 <= i < places.len() && (#[trigger] places[i]).key == other
                    && places[i].claims.contains(sought);
            if i < at {
                assert(after[i] == places[i]);
            } else {
                assert(after[i + 1] == places[i]);
            }
        }
        assert(after[at] == added);
        assert(added.claims[0] == claim);
        if other == key && sought == claim {
            assert(after[at].claims.contains(sought));
        }
        if holds_claim(after, other, sought) {
            let i = choose|i: int|
                0 <= i < after.len() && (#[trigger] after[i]).key == other
                    && after[i].claims.contains(sought);
            if i < at {
                assert(after[i] == places[i]);
            } else if i > at {
                assert(after[i] == places[i - 1]);
            }
        }
    }
}

/// One of the rows claims a place in this way.
pub open spec fn row_claims(
    provider_local: usize,
    asset_rows: Seq<DatabaseRow>,
    rest: Seq<DatabaseRow>,
    key: PlacementKeyView,
    claim: NpcPlacementOccurrence,
) -> bool {
    exists|i: int|
        0 <= i < rest.len() && claim_of_row(
            provider_local,
            asset_rows,
            (#[trigger] rest[i]).id,
        ) == Some((key, claim))
}

proof fn claims_of_rows_are_theirs(
    places: Seq<PlacementView>,
    provider_local: usize,
    asset_rows: Seq<DatabaseRow>,
    rest: Seq<DatabaseRow>,
    key: PlacementKeyView,
    claim: NpcPlacementOccurrence,
)
    requires
        places_ascend(places),
        all_claims_in_order(places),
    ensures
        ({
            let found = claims_of_rows(places, provider_local, asset_rows, rest);
            &&& places_ascend(found)
            &&& all_claims_in_order(found)
            &&& holds_claim(found, key, claim) <==> holds_claim(places, key, claim) || row_claims(
                provider_local,
                asset_rows,
                rest,
                key,
                claim,
            )
        }),
    decreases rest.len(),
{
    if rest.len() > 0 {
        let first = claim_of_row(provider_local, asset_rows, rest[0].id);
        let tail = rest.skip(1);
        let next = match first {
            Some((place, made)) => {
                claimed_places(places, place, made, key, claim);
                claimed(places, place, made)
            },
            None => places,
        };
        claims_of_rows_are_theirs(next, provider_local, asset_rows, tail, key, claim);
        if row_claims(provider_local, asset_rows, tail, key, claim) {
            let i = choose|i: int|
                0 <= i < tail.len() && claim_of_row(
                    provider_local,
                    asset_rows,
                    (#[trigger] tail[i]).id,
                ) == Some((key, claim));
            assert(rest[i + 1] == tail[i]);
        }
        if row_claims(provider_local, asset_rows, rest, key, claim) {
            let i = choose|i: int|
                0 <= i < rest.len() && claim_of_row(
                    provider_local,
                    asset_rows,
                    (#[trigger] rest[i]).id,
                ) == Some((key, claim));
            if i > 0 {
                assert(tail[i - 1] == rest[i]);
            }
        }
        if first == Some((key, claim)) {
            assert(row_claims(provider_local, asset_rows, rest, key, claim));
        }
    }
}

/// A row of one of the providers from `from` on claims a place in this way.
pub open spec fn provider_claims(
    parsed: Seq<ParsedDbProviderView>,
    from: int,
    key: PlacementKeyView,
    claim: NpcPlacementOccurrence,
) -> bool {
    exists|at: int|
        from <= at < parsed.len() && row_claims(
            at as usize,
            (#[trigger] parsed[at]).asset.rows@,
            parsed[at].asset.rows@,
            key,
            claim,
        )
}

proof fn claims_from_are_theirs(
    places: Seq<PlacementView>,
    parsed: Seq<ParsedDbProviderView>,
    at: int,
    key: PlacementKeyView,
    claim: NpcPlacementOccurrence,
)
    requires
        0 <= at,
        places_ascend(places),
        all_claims_in_order(places),
    ensures
        ({
            let found = all_claims_from(places, parsed, at);
            &&& places_ascend(found)
            &&& all_claims_in_order(found)
            &&& holds_claim(found, key, claim) <==> holds_claim(places, key, claim)
                || provider_claims(parsed, at, key, claim)
        }),
    decreases parsed.len() - at,
{
    if at < parsed.len() {
        let rows = parsed[at].asset.rows@;
        claims_of_rows_are_theirs(places, at as usize, rows, rows, key, claim);
        let next = claims_of_rows(places, at as usize, rows, rows);
        claims_from_are_theirs(next, parsed, at + 1, key, claim);
        if provider_claims(parsed, at + 1, key, claim) {
            let k = choose|k: int|
                at + 1 <= k < parsed.len() && row_claims(
                    k as usize,
                    (#[trigger] parsed[k]).asset.rows@,
                    parsed[k].asset.rows@,
                    key,
                    claim,
                );
            assert(at <= k);
        }
        if provider_claims(parsed, at, key, claim) {
            let k = choose|k: int|
                at <= k < parsed.len() && row_claims(
                    k as usize,
                    (#[trigger] parsed[k]).asset.rows@,
                    parsed[k].asset.rows@,
                    key,
                    claim,
                );
            if k > at {
                assert(provider_claims(parsed, at + 1, key, claim));
            }
        }
        if row_claims(at as usize, rows, rows, key, claim) {
            assert(parsed[at].asset.rows@ == rows);
            assert(provider_claims(parsed, at, key, claim));
        }
    }
}

/// The places that the rows of all providers claim ascend, each key once; the claims
/// on each of them stand in order, and they are exactly those of the rows that claim
/// the place.
pub proof fn claims_are_those_of_the_rows(
    parsed: Seq<ParsedDbProviderView>,
    key: PlacementKeyView,
    claim: NpcPlacementOccurrence,
)
    ensures
        ({
            let places = all_claims_from(Seq::empty(), parsed, 0);
            &&& places_ascend(places)
            &&& all_claims_in_order(places)
            &&& holds_claim(places, key, claim) <==> provider_claims(parsed, 0, key, claim)
        }),
{
    claims_from_are_theirs(Seq::empty(), parsed, 0, key, claim);
}

/// Whether a provider makes the same claim as another one.
pub open spec fn shares_claim(
    claims: Seq<NpcPlacementOccurrence>,
    provider_local: usize,
    claim: NpcPlacementOccurrence,
) -> bool {
    exists|k: int|
        0 <= k < claims.len() && (#[trigger] claims[k]).provider_local == provider_local
            && claims[k].row_id == claim.row_id && claims[k].binding == claim.binding
}

/// Whether a place is claimed by different rows, for different characters or
/// talks, and not in the same way by every provider that claims it.
pub open spec fn collides(claims: Seq<NpcPlacementOccurrence>) -> bool {
    &&& exists|i: int, j: int|
        0 <= i < claims.len() && 0 <= j < claims.len() && (#[trigger] claims[i]).row_id != (
        #[trigger] claims[j]).row_id
    &&& exists|i: int, j: int|
        0 <= i < claims.len() && 0 <= j < claims.len() && (#[trigger] claims[i]).binding != (
        #[trigger] claims[j]).binding
    &&& exists|i: int, j: int|
        0 <= i < claims.len() && 0 <= j < claims.len() && !shares_claim(
            claims,
            (#[trigger] claims[j]).provider_local,
            #[trigger] claims[i],
        )
}

fn makes_claim(
    claims: &Vec<NpcPlacementOccurrence>,
    provider_local: usize,
    claim: NpcPlacementOccurrence,
) -> (result: bool)
    ensures
        result == shares_claim(claims@, provider_local, claim),
{
    let mut at: usize = 0;
    while at < claims.len()
        invariant
            at <= claims@.len(),
            forall|k: int|
                0 <= k < at ==> !((#[trigger] claims@[k]).provider_local == provider_local
                    && claims@[k].row_id == claim.row_id && claims@[k].binding == claim.binding),
        decreases claims.len() - at,
    {
        let other = claims[at];
        if other.provider_local == provider_local && other.row_id == claim.row_id
            && other.binding.owner_npc == claim.binding.owner_npc && other.binding.talk_id
            == claim.binding.talk_id {
            assert(claims@[at as int].binding == claim.binding);
            return true;
        }
        at += 1;
    }
    false
}

fn rows_differ(claims: &Vec<NpcPlacementOccurrence>) -> (result: bool)
    ensures
        result == exists|i: int, j: int|
            0 <= i < claims@.len() && 0 <= j < claims@.len() && (#[trigger] claims@[i]).row_id != (
            #[trigger] claims@[j]).row_id,
{
    let mut at: usize = 0;
    while at < claims.len()
        invariant
            at <= claims@.len(),
            forall|i: int| 0 <= i < at ==> (#[trigger] claims@[i]).row_id == claims@[0].row_id,
        decreases claims.len() - at,
    {
        if claims[at].row_id != claims[0].row_id {
            assert(claims@[at as int].row_id != claims@[0].row_id);
            return true;
        }
        at += 1;
    }
    false
}

fn bindings_differ(claims: &Vec<NpcPlacementOccurrence>) -> (result: bool)
    ensures
        result == exists|i: int, j: int|
            0 <= i < claims@.len() && 0 <= j < claims@.len() && (#[trigger] claims@[i]).binding != (
            #[trigger] claims@[j]).binding,
{
    let mut at: usize = 0;
    while at < claims.len()
        invariant
            at <= claims@.len(),
            forall|i: int| 0 <= i < at ==> (#[trigger] claims@[i]).binding == claims@[0].binding,
        decreases claims.len() - at,
    {
        if claims[at].binding.owner_npc != claims[0].binding.owner_npc
            || claims[at].binding.talk_id != claims[0].binding.talk_id {
            assert(claims@[at as int].binding != claims@[0].binding);
            return true;
        }
        at += 1;
    }
    false
}

fn patterns_differ(claims: &Vec<NpcPlacementOccurrence>) -> (result: bool)
    ensures
        result == exists|i: int, j: int|
            0 <= i < claims@.len() && 0 <= j < claims@.len() && !shares_claim(
                claims@,
                (#[trigger] claims@[j]).provider_local,
                #[trigger] claims@[i],
            ),
{
    let mut at: usize = 0;
    while at < claims.len()
        invariant
            at <= claims@.len(),
            forall|i: int, j: int|
                0 <= i < at && 0 <= j < claims@.len() ==> shares_claim(
                    claims@,
                    (#[trigger] claims@[j]).provider_local,
                    #[trigger] claims@[i],
                ),
        decreases claims.len() - at,
    {
        let mut other: usize = 0;
        while other < claims.len()
            invariant
                at < claims@.len(),
                other <= claims@.len(),
                forall|j: int|
                    0 <= j < other ==> shares_claim(
                        claims@,
                        (#[trigger] claims@[j]).provider_local,
                        claims@[at as int],
                    ),
            decreases claims.len() - other,
        {
            if !makes_claim(claims, claims[other].provider_local, claims[at]) {
                assert(!shares_claim(
                    claims@,
                    claims@[other as int].provider_local,
                    claims@[at as int],
                ));
                return true;
            }
            other += 1;
        }
        at += 1;
    }
    false
}

/// The variant of one claim.
pub open spec fn claim_variant(
    input: InputDescriptorView,
    provider: ParsedDbProviderView,
    asset_path: Seq<char>,
    key: PlacementKeyView,
    claim: NpcPlacementOccurrence,
    row: DatabaseRow,
) -> VariantView {
    VariantView {
        id: stable_id_of(
            "variant"@,
            seq![
                asset_path,
                key_stable_text(key),
                signed_dec(claim.row_id as int),
                input.id,
                signed_dec(claim.binding.owner_npc as int),
                signed_dec(claim.binding.talk_id as int),
                row.raw_sha256@,
            ],
        ),
        label: input.display_name,
        input_id: input.id,
        raw_sha256: row.raw_sha256@,
        semantic_sha256: row.semantic_sha256@,
        preview: "row "@ + signed_dec(claim.row_id as int) + ", "@ + key_display_text(key) + (
        ", m_OwnerNPC="@ + signed_dec(claim.binding.owner_npc as int) + ", m_TalkID="@ + signed_dec(
            claim.binding.talk_id as int,
        )),
        marker: "row-map:0x"@ + hex_upper(row.marker),
        provenance: ProvenanceView {
            input_id: input.id,
            input_path: input.path,
            entry_path: provider.group.components.uexp,
            raw_sha256: row.raw_sha256@,
        },
    }
}

fn make_claim_variant(
    input: &InputDescriptor,
    provider: &ParsedDbProvider,
    asset_path: &str,
    key: &NpcPlacementLogicalKey,
    claim: NpcPlacementOccurrence,
    row: &DatabaseRow,
) -> (result: Variant)
    ensures
        result@ == claim_variant(input@, provider@, asset_path@, key@, claim, *row),
{
    let row_text = signed_decimal(claim.row_id);
    let owner_text = signed_decimal(claim.binding.owner_npc);
    let talk_text = signed_decimal(claim.binding.talk_id);
    let mut parts: Vec<String> = Vec::new();
    parts.push(asset_path.to_owned());
    parts.push(key.stable_text());
    parts.push(row_text.clone());
    parts.push(input.id.clone());
    parts.push(owner_text.clone());
    parts.push(talk_text.clone());
    parts.push(row.raw_sha256.clone());
    assert(texts(parts@) =~= seq![
        asset_path@,
        key_stable_text(key@),
        signed_dec(claim.row_id as int),
        input.id@,
        signed_dec(claim.binding.owner_npc as int),
        signed_dec(claim.binding.talk_id as int),
        row.raw_sha256@,
    ]);
    Variant {
        id: stable_id("variant", &parts),
        label: input.display_name.clone(),
        input_id: input.id.clone(),
        raw_sha256: row.raw_sha256.clone(),
        semantic_sha256: row.semantic_sha256.clone(),
        preview: cat5(
            "row ",
            row_text.as_str(),
            ", ",
            key.display_text().as_str(),
            cat4(", m_OwnerNPC=", owner_text.as_str(), ", m_TalkID=", talk_text.as_str()).as_str(),
        ),
        marker: cat2("row-map:0x", hex_byte(row.marker).as_str()),
        provenance: Provenance {
            input_id: input.id.clone(),
            input_path: input.path.clone(),
            entry_path: clone_text(&provider.group.components.uexp),
            raw_sha256: row.raw_sha256.clone(),
        },
    }
}

/// The variants of all claims on a place.
pub open spec fn claim_variants_from(
    done: Seq<VariantView>,
    opened: Seq<OpenedPakView>,
    parsed: Seq<ParsedDbProviderView>,
    asset_path: Seq<char>,
    key: PlacementKeyView,
    rest: Seq<NpcPlacementOccurrence>,
) -> Seq<VariantView>
    decreases rest.len(),
{
    if rest.len() == 0 {
        done
    } else {
        let provider = parsed[rest[0].provider_local as int];
        let next = match row_from(provider.asset.rows@, rest[0].row_id) {
            Some(row) => done.push(
                claim_variant(
                    opened[provider.input_index as int].descriptor,
                    provider,
                    asset_path,
                    key,
                    rest[0],
                    row,
                ),
            ),
            None => done,
        };
        claim_variants_from(next, opened, parsed, asset_path, key, rest.skip(1))
    }
}

/// Every claim names a provider that is there.
pub open spec fn claims_known(claims: Seq<NpcPlacementOccurrence>, providers: nat) -> bool {
    forall|i: int| 0 <= i < claims.len() ==> (#[trigger] claims[i]).provider_local < providers
}

fn list_claim_variants(
    opened: &Vec<OpenedPak>,
    parsed: &Vec<ParsedDbProvider>,
    asset_path: &str,
    placement: &Placement,
) -> (result: Vec<Variant>)
    requires
        parsed_well(parsed@, opened@.len()),
        claims_known(placement.claims@, parsed@.len()),
    ensures
        views(result@) == claim_variants_from(
            Seq::empty(),
            views(opened@),
            views(parsed@),
            asset_path@,
            placement.key@,
            placement.claims@,
        ),
{
    let ghost inputs = views(opened@);
    let ghost all = views(parsed@);
    let ghost claims = placement.claims@;
    let mut variants: Vec<Variant> = Vec::new();
    let mut at: usize = 0;
    proof {
        assert(claims.skip(0) =~= claims);
        assert(views(variants@) =~= Seq::<VariantView>::empty());
    }
    while at < placement.claims.len()
        invariant
            at <= placement.claims@.len(),
            inputs == views(opened@),
            all == views(parsed@),
            claims == placement.claims@,
            parsed_well(parsed@, opened@.len()),
            claims_known(placement.claims@, parsed@.len()),
            claim_variants_from(
                Seq::empty(),
                inputs,
                all,
                asset_path@,
                placement.key@,
                claims,
            ) == claim_variants_from(
                views(variants@),
                inputs,
                all,
                asset_path@,
                placement.key@,
                claims.skip(at as int),
            ),
        decreases placement.claims.len() - at,
    {
        let claim = placement.claims[at];
        proof {
            assert(claims.skip(at as int)[0] == claim);
            assert(claims.skip(at as int).skip(1) =~= claims.skip(at as int + 1));
            assert(claims[at as int].provider_local < parsed@.len());
        }
        let provider = &parsed[claim.provider_local];
        proof {
            assert(all[claim.provider_local as int] == provider@);
            assert(inputs[provider.input_index as int] == opened@[provider.input_index as int]@);
        }
        match indexed_row(&provider.asset, claim.row_id) {
            Some(row) => {
                let variant = make_claim_variant(
                    &opened[provider.input_index].descriptor,
                    provider,
                    asset_path,
                    &placement.key,
                    claim,
                    row,
                );
                proof {
                    views_push(variants@, variant);
                }
                variants.push(variant);
            },
            None => {},
        }
        at += 1;
    }
    variants
}

/// The rows of a list of claims.
pub open spec fn claim_rows(claims: Seq<NpcPlacementOccurrence>) -> Seq<i64> {
    claims.map_values(|claim: NpcPlacementOccurrence| claim.row_id)
}

/// The warning of a place that may be claimed twice.
pub open spec fn placement_message(placement: PlacementView) -> Seq<char> {
    "NpcSet location "@ + key_display_text(placement.key)
        + " may contain overlapping NPC or dialogue settings (rows: "@ + joined(
        id_texts(with_ids(Seq::empty(), claim_rows(placement.claims))),
        ", "@,
    )
        + "). The rows will still be combined, but only one may appear in game. Check this location after merging."@
}

/// The conflict of a place that may be claimed twice. It needs no choice.
pub open spec fn placement_conflict(
    opened: Seq<OpenedPakView>,
    parsed: Seq<ParsedDbProviderView>,
    asset_path: Seq<char>,
    placement: PlacementView,
) -> ConflictView {
    conflict_of(
        ConflictKind::PotentialPlacementCollision,
        asset_path,
        None,
        Some("npc_placement:"@ + key_stable_text(placement.key)),
        placement_message(placement),
        claim_variants_from(
            Seq::empty(),
            opened,
            parsed,
            asset_path,
            placement.key,
            placement.claims,
        ),
        false,
    )
}

/// The conflicts and warnings of the places from `at` on.
pub open spec fn collisions_from(
    conflicts: Seq<ConflictView>,
    warnings: Seq<Seq<char>>,
    opened: Seq<OpenedPakView>,
    parsed: Seq<ParsedDbProviderView>,
    asset_path: Seq<char>,
    rest: Seq<PlacementView>,
) -> (Seq<ConflictView>, Seq<Seq<char>>)
    decreases rest.len(),
{
    if rest.len() == 0 {
        (conflicts, warnings)
    } else if collides(rest[0].claims) {
        collisions_from(
            conflicts.push(placement_conflict(opened, parsed, asset_path, rest[0])),
            warnings.push(placement_message(rest[0])),
            opened,
            parsed,
            asset_path,
            rest.skip(1),
        )
    } else {
        collisions_from(conflicts, warnings, opened, parsed, asset_path, rest.skip(1))
    }
}

/// The collisions of placements in a database.
pub open spec fn placement_collisions(
    opened: Seq<OpenedPakView>,
    parsed: Seq<ParsedDbProviderView>,
    asset_path: Seq<char>,
) -> (Seq<ConflictView>, Seq<Seq<char>>) {
    if lists_placements(asset_path) {
        collisions_from(
            Seq::empty(),
            Seq::empty(),
            opened,
            parsed,
            asset_path,
            all_claims_from(Seq::empty(), parsed, 0),
        )
    } else {
        (Seq::empty(), Seq::empty())
    }
}

/// The claims of every place name providers that are there.
pub open spec fn places_known(places: Seq<PlacementView>, providers: nat) -> bool {
    forall|i: int| 0 <= i < places.len() ==> claims_known((#[trigger] places[i]).claims, providers)
}

proof fn with_claim_known(claims: Seq<NpcPlacementOccurrence>, claim: NpcPlacementOccurrence, providers: nat)
    requires
        claims_known(claims, providers),
        claim.provider_local < providers,
    ensures
        claims_known(with_claim(claims, claim), providers),
{
    claim_slot_bounds(claims, claim);
    let after = with_claim(claims, claim);
    let slot = claim_slot(claims, claim);
    assert forall|i: int| 0 <= i < after.len() implies (#[trigger] after[i]).provider_local
        < providers by {
        if i < slot {
            assert(after[i] == claims[i]);
        } else if i > slot {
            assert(after[i] == claims[i - 1]);
        }
    }
}

proof fn claim_slot_bounds(claims: Seq<NpcPlacementOccurrence>, claim: NpcPlacementOccurrence)
    ensures
        0 <= claim_slot(claims, claim) <= claims.len(),
    decreases claims.len(),
{
    if claims.len() > 0 && claim_less(claims[0], claim) {
        claim_slot_bounds(claims.skip(1), claim);
    }
}

proof fn place_slot_bounds(places: Seq<PlacementView>, key: PlacementKeyView)
    ensures
        0 <= place_slot(places, key) <= places.len(),
    decreases places.len(),
{
    if places.len() > 0 && key_less(places[0].key, key) {
        place_slot_bounds(places.skip(1), key);
    }
}

proof fn claimed_known(
    places: Seq<PlacementView>,
    key: PlacementKeyView,
    claim: NpcPlacementOccurrence,
    providers: nat,
)
    requires
        places_known(places, providers),
        claim.provider_local < providers,
    ensures
        places_known(claimed(places, key, claim), providers),
{
    place_slot_bounds(places, key);
    let slot = place_slot(places, key);
    let after = claimed(places, key, claim);
    if slot < places.len() && places[slot].key == key {
        with_claim_known(places[slot].claims, claim, providers);
        assert forall|i: int| 0 <= i < after.len() implies claims_known(
            (#[trigger] after[i]).claims,
            providers,
        ) by {
            if i != slot {
                assert(after[i] == places[i]);
            }
        }
    } else {
        assert forall|i: int| 0 <= i < after.len() implies claims_known(
            (#[trigger] after[i]).claims,
            providers,
        ) by {
            if i < slot {
                assert(after[i] == places[i]);
            } else if i > slot {
                assert(after[i] == places[i - 1]);
            }
        }
    }
}

proof fn claims_of_rows_known(
    places: Seq<PlacementView>,
    provider_local: usize,
    asset_rows: Seq<DatabaseRow>,
    rest: Seq<DatabaseRow>,
    providers: nat,
)
    requires
        places_known(places, providers),
        provider_local < providers,
    ensures
        places_known(claims_of_rows(places, provider_local, asset_rows, rest), providers),
    decreases rest.len(),
{
    if rest.len() > 0 {
        let next = match row_from(asset_rows, rest[0].id) {
            Some(row) => match (binding_in(row), key_in(row)) {
                (Some(binding), Some(key)) => {
                    let claim = NpcPlacementOccurrence {
                        provider_local,
                        row_id: rest[0].id,
                        binding,
                    };
                    claimed_known(places, key, claim, providers);
                    claimed(places, key, claim)
                },
                _ => places,
            },
            None => places,
        };
        claims_of_rows_known(next, provider_local, asset_rows, rest.skip(1), providers);
    }
}

proof fn all_claims_known(places: Seq<PlacementView>, parsed: Seq<ParsedDbProviderView>, at: int)
    requires
        0 <= at <= parsed.len(),
        parsed.len() <= usize::MAX,
        places_known(places, parsed.len()),
    ensures
        places_known(all_claims_from(places, parsed, at), parsed.len()),
    decreases parsed.len() - at,
{
    if at < parsed.len() {
        let rows = parsed[at].asset.rows@;
        claims_of_rows_known(places, at as usize, rows, rows, parsed.len());
        all_claims_known(claims_of_rows(places, at as usize, rows, rows), parsed, at + 1);
    }
}

fn claimed_rows(claims: &Vec<NpcPlacementOccurrence>) -> (result: Vec<i64>)
    ensures
        result@ == with_ids(Seq::empty(), claim_rows(claims@)),
{
    let ghost all = claim_rows(claims@);
    let mut rows: Vec<i64> = Vec::new();
    let mut at: usize = 0;
    assert(all.skip(0) =~= all);
    while at < claims.len()
        invariant
            at <= claims@.len(),
            all == claim_rows(claims@),
            ids_ascend(rows@),
            with_ids(Seq::empty(), all) == with_ids(rows@, all.skip(at as int)),
        decreases claims.len() - at,
    {
        proof {
            assert(all.skip(at as int)[0] == claims@[at as int].row_id);
            assert(all.skip(at as int).skip(1) =~= all.skip(at as int + 1));
        }
        enter_id(&mut rows, claims[at].row_id);
        at += 1;
    }
    rows
}

fn make_placement_message(placement: &Placement) -> (result: String)
    ensures
        result@ == placement_message(placement@),
{
    let rows = join(&list_id_texts(&claimed_rows(&placement.claims)), ", ");
    cat5(
        "NpcSet location ",
        placement.key.display_text().as_str(),
        " may contain overlapping NPC or dialogue settings (rows: ",
        rows.as_str(),
        "). The rows will still be combined, but only one may appear in game. Check this location after merging.",
    )
}

/// Finds the places of a database that may be claimed twice.
pub fn analyze_potential_npc_placement_collisions(
    opened: &Vec<OpenedPak>,
    parsed: &Vec<ParsedDbProvider>,
    asset_path: &str,
) -> (result: (Vec<Conflict>, Vec<String>))
    requires
        parsed_well(parsed@, opened@.len()),
    ensures
        (views(result.0@), texts(result.1@)) == placement_collisions(
            views(opened@),
            views(parsed@),
            asset_path@,
        ),
{
    let mut conflicts: Vec<Conflict> = Vec::new();
    let mut warnings: Vec<String> = Vec::new();
    proof {
        assert(views(conflicts@) =~= Seq::<ConflictView>::empty());
        assert(texts(warnings@) =~= Seq::<Seq<char>>::empty());
    }
    if !is_npc_set_list_asset(asset_path) {
        return (conflicts, warnings);
    }
    let ghost inputs = views(opened@);
    let ghost all = views(parsed@);
    let places = collect_placements(parsed);
    let ghost known = views(places@);
    let count: usize = parsed.len();
    proof {
        all_claims_known(Seq::empty(), all, 0);
        assert(known.skip(0) =~= known);
    }
    let mut at: usize = 0;
    while at < places.len()
        invariant
            at <= places@.len(),
            inputs == views(opened@),
            all == views(parsed@),
            known == views(places@),
            parsed_well(parsed@, opened@.len()),
            places_known(known, parsed@.len()),
            collisions_from(Seq::empty(), Seq::empty(), inputs, all, asset_path@, known)
                == collisions_from(
                views(conflicts@),
                texts(warnings@),
                inputs,
                all,
                asset_path@,
                known.skip(at as int),
            ),
        decreases places.len() - at,
    {
        let placement = &places[at];
        proof {
            assert(known[at as int] == placement@);
            assert(claims_known(known[at as int].claims, parsed@.len()));
            assert(known.skip(at as int)[0] == placement@);
            assert(known.skip(at as int).skip(1) =~= known.skip(at as int + 1));
        }
        if rows_differ(&placement.claims) && bindings_differ(&placement.claims) && patterns_differ(
            &placement.claims,
        ) {
            let variants = list_claim_variants(opened, parsed, asset_path, placement);
            let message = make_placement_message(placement);
            let group_id = cat2("npc_placement:", placement.key.stable_text().as_str());
            let conflict = make_conflict(
                ConflictKind::PotentialPlacementCollision,
                asset_path,
                None,
                Some(group_id.as_str()),
                message.as_str(),
                variants,
                false,
            );
            proof {
                views_push(conflicts@, conflict);
                texts_push(warnings@, message);
            }
            conflicts.push(conflict);
            warnings.push(message);
        }
        at += 1;
    }
    (conflicts, warnings)
}

/// Rows of a database make these two claims on a place.
pub open spec fn both_claim(
    parsed: Seq<ParsedDbProviderView>,
    key: PlacementKeyView,
    one: NpcPlacementOccurrence,
    other: NpcPlacementOccurrence,
) -> bool {
    provider_claims(parsed, 0, key, one) && provider_claims(parsed, 0, key, other)
}

/// The rows of a database may collide on a place: rows with different ids claim it, for
/// different characters or talks, and some provider that claims it does not make every
/// claim that is made.
#[verifier::opaque]
pub open spec fn may_collide(parsed: Seq<ParsedDbProviderView>, key: PlacementKeyView) -> bool {
    &&& exists|one: NpcPlacementOccurrence, other: NpcPlacementOccurrence| #[trigger]
        both_claim(parsed, key, one, other) && one.row_id != other.row_id
    &&& exists|one: NpcPlacementOccurrence, other: NpcPlacementOccurrence| #[trigger]
        both_claim(parsed, key, one, other) && one.binding != other.binding
    &&& exists|one: NpcPlacementOccurrence, other: NpcPlacementOccurrence| #[trigger]
        both_claim(parsed, key, one, other) && !provider_claims(
            parsed,
            0,
            key,
            NpcPlacementOccurrence { provider_local: other.provider_local, ..one },
        )
}

/// A conflict tells that a place may be claimed twice, and needs no choice.
pub open spec fn tells_of_place(
    conflict: ConflictView,
    asset_path: Seq<char>,
    key: PlacementKeyView,
) -> bool {
    &&& conflict.kind == ConflictKind::PotentialPlacementCollision
    &&& !conflict.blocking
    &&& conflict.asset_path == asset_path
    &&& conflict.row_id is None
    &&& conflict.group_id == Some("npc_placement:"@ + key_stable_text(key))
}

proof fn claims_of_a_place(parsed: Seq<ParsedDbProviderView>, at: int)
    requires
        0 <= at < all_claims_from(Seq::empty(), parsed, 0).len(),
    ensures
        ({
            let place = all_claims_from(Seq::empty(), parsed, 0)[at];
            forall|claim: NpcPlacementOccurrence| #[trigger]
                place.claims.contains(claim) <==> provider_claims(parsed, 0, place.key, claim)
        }),
{
    let places = all_claims_from(Seq::empty(), parsed, 0);
    let place = places[at];
    assert forall|claim: NpcPlacementOccurrence| #[trigger]
        place.claims.contains(claim) <==> provider_claims(parsed, 0, place.key, claim) by {
        claims_are_those_of_the_rows(parsed, place.key, claim);
        if provider_claims(parsed, 0, place.key, claim) {
            let i = choose|i: int|
                0 <= i < places.len() && (#[trigger] places[i]).key == place.key
                    && places[i].claims.contains(claim);
            key_order_is_strict_and_total(place.key, place.key, place.key);
            if i < at {
                assert(key_less(places[i].key, places[at].key));
            } else if at < i {
                assert(key_less(places[at].key, places[i].key));
            }
        }
        if place.claims.contains(claim) {
            assert(holds_claim(places, place.key, claim));
        }
    }
}

proof fn places_collide_as_their_rows_do(parsed: Seq<ParsedDbProviderView>, at: int)
    requires
        0 <= at < all_claims_from(Seq::empty(), parsed, 0).len(),
    ensures
        ({
            let place = all_claims_from(Seq::empty(), parsed, 0)[at];
            collides(place.claims) <==> may_collide(parsed, place.key)
        }),
{
    reveal(may_collide);
    let place = all_claims_from(Seq::empty(), parsed, 0)[at];
    let claims = place.claims;
    let key = place.key;
    claims_of_a_place(parsed, at);
    assert forall|i: int, j: int|
        0 <= i < claims.len() && 0 <= j < claims.len() implies #[trigger] both_claim(
        parsed,
        key,
        claims[i],
        claims[j],
    ) by {
        assert(claims.contains(claims[i]) && claims.contains(claims[j]));
    }
    assert forall|one: NpcPlacementOccurrence, other: NpcPlacementOccurrence|
        shares_claim(claims, other.provider_local, one) <==> #[trigger] provider_claims(
            parsed,
            0,
            key,
            NpcPlacementOccurrence { provider_local: other.provider_local, ..one },
        ) by {
        let shared = NpcPlacementOccurrence { provider_local: other.provider_local, ..one };
        assert(claims.contains(shared) <==> provider_claims(parsed, 0, key, shared));
        if claims.contains(shared) {
            let k = choose|k: int| 0 <= k < claims.len() && claims[k] == shared;
            assert(claims[k].provider_local == other.provider_local);
        }
        if shares_claim(claims, other.provider_local, one) {
            let k = choose|k: int|
                0 <= k < claims.len() && (#[trigger] claims[k]).provider_local
                    == other.provider_local && claims[k].row_id == one.row_id && claims[k].binding
                    == one.binding;
            assert(claims[k] == shared);
        }
    }
    if collides(claims) {
        let (a, b) = choose|i: int, j: int|
            0 <= i < claims.len() && 0 <= j < claims.len() && (#[trigger] claims[i]).row_id != (
            #[trigger] claims[j]).row_id;
        assert(both_claim(parsed, key, claims[a], claims[b]));
        let (c, d) = choose|i: int, j: int|
            0 <= i < claims.len() && 0 <= j < claims.len() && (#[trigger] claims[i]).binding != (
            #[trigger] claims[j]).binding;
        assert(both_claim(parsed, key, claims[c], claims[d]));
        let (e, f) = choose|i: int, j: int|
            0 <= i < claims.len() && 0 <= j < claims.len() && !shares_claim(
                claims,
                (#[trigger] claims[j]).provider_local,
                #[trigger] claims[i],
            );
        assert(both_claim(parsed, key, claims[e], claims[f]));
    }
    if may_collide(parsed, key) {
        let (one, other) = choose|
            one: NpcPlacementOccurrence,
            other: NpcPlacementOccurrence,
        | #[trigger]
            both_claim(parsed, key, one, other) && one.row_id != other.row_id;
        assert(claims.contains(one) && claims.contains(other));
        let a = choose|a: int| 0 <= a < claims.len() && claims[a] == one;
        let b = choose|b: int| 0 <= b < claims.len() && claims[b] == other;
        assert(claims[a].row_id != claims[b].row_id);
        let (one, other) = choose|
            one: NpcPlacementOccurrence,
            other: NpcPlacementOccurrence,
        | #[trigger]
            both_claim(parsed, key, one, other) && one.binding != other.binding;
        assert(claims.contains(one) && claims.contains(other));
        let a = choose|a: int| 0 <= a < claims.len() && claims[a] == one;
        let b = choose|b: int| 0 <= b < claims.len() && claims[b] == other;
        assert(claims[a].binding != claims[b].binding);
        let (one, other) = choose|
            one: NpcPlacementOccurrence,
            other: NpcPlacementOccurrence,
        | #[trigger]
            both_claim(parsed, key, one, other) && !provider_claims(
                parsed,
                0,
                key,
                NpcPlacementOccurrence { provider_local: other.provider_local, ..one },
            );
        assert(claims.contains(one) && claims.contains(other));
        let a = choose|a: int| 0 <= a < claims.len() && claims[a] == one;
        let b = choose|b: int| 0 <= b < claims.len() && claims[b] == other;
        assert(!shares_claim(claims, claims[b].provider_local, claims[a]));
    }
}

proof fn collisions_are_added(
    conflicts: Seq<ConflictView>,
    warnings: Seq<Seq<char>>,
    opened: Seq<OpenedPakView>,
    parsed: Seq<ParsedDbProviderView>,
    asset_path: Seq<char>,
    rest: Seq<PlacementView>,
    i: int,
)
    requires
        0 <= i < conflicts.len(),
    ensures
        ({
            let found = collisions_from(conflicts, warnings, opened, parsed, asset_path, rest).0;
            conflicts.len() <= found.len() && found[i] == conflicts[i]
        }),
    decreases rest.len(),
{
    if rest.len() > 0 {
        let item = placement_conflict(opened, parsed, asset_path, rest[0]);
        let told = warnings.push(placement_message(rest[0]));
        if collides(rest[0].claims) {
            let more = conflicts.push(item);
            collisions_are_added(more, told, opened, parsed, asset_path, rest.skip(1), i);
            assert(more[i] == conflicts[i]);
        } else {
            collisions_are_added(
                conflicts,
                warnings,
                opened,
                parsed,
                asset_path,
                rest.skip(1),
                i,
            );
        }
    }
}

proof fn colliding_place_is_told(
    conflicts: Seq<ConflictView>,
    warnings: Seq<Seq<char>>,
    opened: Seq<OpenedPakView>,
    parsed: Seq<ParsedDbProviderView>,
    asset_path: Seq<char>,
    rest: Seq<PlacementView>,
    k: int,
) -> (i: int)
    requires
        0 <= k < rest.len(),
        collides(rest[k].claims),
    ensures
        ({
            let found = collisions_from(conflicts, warnings, opened, parsed, asset_path, rest).0;
            0 <= i < found.len() && tells_of_place(found[i], asset_path, rest[k].key)
        }),
    decreases rest.len(),
{
    let tail = rest.skip(1);
    let item = placement_conflict(opened, parsed, asset_path, rest[0]);
    let told = warnings.push(placement_message(rest[0]));
    if collides(rest[0].claims) {
        let more = conflicts.push(item);
        if k == 0 {
            let i = conflicts.len() as int;
            collisions_are_added(more, told, opened, parsed, asset_path, tail, i);
            assert(more[i] == item);
            i
        } else {
            assert(tail[k - 1] == rest[k]);
            colliding_place_is_told(more, told, opened, parsed, asset_path, tail, k - 1)
        }
    } else {
        assert(tail[k - 1] == rest[k]);
        colliding_place_is_told(conflicts, warnings, opened, parsed, asset_path, tail, k - 1)
    }
}

proof fn told_place_collides(
    conflicts: Seq<ConflictView>,
    warnings: Seq<Seq<char>>,
    opened: Seq<OpenedPakView>,
    parsed: Seq<ParsedDbProviderView>,
    asset_path: Seq<char>,
    rest: Seq<PlacementView>,
    i: int,
) -> (k: int)
    requires
        conflicts.len() <= i < collisions_from(
            conflicts,
            warnings,
            opened,
            parsed,
            asset_path,
            rest,
        ).0.len(),
    ensures
        ({
            let found = collisions_from(conflicts, warnings, opened, parsed, asset_path, rest).0;
            0 <= k < rest.len() && collides(rest[k].claims) && tells_of_place(
                found[i],
                asset_path,
                rest[k].key,
            )
        }),
    decreases rest.len(),
{
    if rest.len() == 0 {
        0
    } else {
        let tail = rest.skip(1);
        let item = placement_conflict(opened, parsed, asset_path, rest[0]);
        let told = warnings.push(placement_message(rest[0]));
        if collides(rest[0].claims) {
            let more = conflicts.push(item);
            if i == conflicts.len() {
                collisions_are_added(more, told, opened, parsed, asset_path, tail, i);
                assert(more[i] == item);
                0
            } else {
                let k = told_place_collides(more, told, opened, parsed, asset_path, tail, i);
                assert(tail[k] == rest[k + 1]);
                k + 1
            }
        } else {
            let k = told_place_collides(
                conflicts,
                warnings,
                opened,
                parsed,
                asset_path,
                tail,
                i,
            );
            assert(tail[k] == rest[k + 1]);
            k + 1
        }
    }
}

/// Of a database that places characters every place is told of on which its rows may
/// collide.
pub proof fn places_that_may_collide_are_told(
    opened: Seq<OpenedPakView>,
    parsed: Seq<ParsedDbProviderView>,
    asset_path: Seq<char>,
    key: PlacementKeyView,
) -> (i: int)
    requires
        lists_placements(asset_path),
        may_collide(parsed, key),
    ensures
        0 <= i < placement_collisions(opened, parsed, asset_path).0.len(),
        tells_of_place(placement_collisions(opened, parsed, asset_path).0[i], asset_path, key),
{
    let places = all_claims_from(Seq::empty(), parsed, 0);
    let k = claimed_place_is_there(parsed, key);
    places_collide_as_their_rows_do(parsed, k);
    colliding_place_is_told(Seq::empty(), Seq::empty(), opened, parsed, asset_path, places, k)
}

/// Places are told of only for a database that places characters, and only where its
/// rows may collide.
pub proof fn told_places_may_collide(
    opened: Seq<OpenedPakView>,
    parsed: Seq<ParsedDbProviderView>,
    asset_path: Seq<char>,
    i: int,
) -> (key: PlacementKeyView)
    requires
        0 <= i < placement_collisions(opened, parsed, asset_path).0.len(),
    ensures
        lists_placements(asset_path),
        may_collide(parsed, key),
        tells_of_place(placement_collisions(opened, parsed, asset_path).0[i], asset_path, key),
{
    let places = all_claims_from(Seq::empty(), parsed, 0);
    let k = told_place_collides(Seq::empty(), Seq::empty(), opened, parsed, asset_path, places, i);
    places_collide_as_their_rows_do(parsed, k);
    places[k].key
}

proof fn claimed_place_is_there(parsed: Seq<ParsedDbProviderView>, key: PlacementKeyView) -> (k: int)
    requires
        may_collide(parsed, key),
    ensures
        0 <= k < all_claims_from(Seq::empty(), parsed, 0).len(),
        all_claims_from(Seq::empty(), parsed, 0)[k].key == key,
{
    reveal(may_collide);
    let places = all_claims_from(Seq::empty(), parsed, 0);
    let (one, other) = choose|
        one: NpcPlacementOccurrence,
        other: NpcPlacementOccurrence,
    | #[trigger]
        both_claim(parsed, key, one, other) && one.row_id != other.row_id;
    claims_are_those_of_the_rows(parsed, key, one);
    choose|k: int|
        0 <= k < places.len() && (#[trigger] places[k]).key == key && places[k].claims.contains(one)
}

} // verus!
