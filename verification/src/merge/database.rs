//! Databases as their reader hands them over: rows, the values in them, and the
//! shell around the row list.
use vstd::prelude::*;
use vstd::slice::{slice_subrange, slice_to_vec};
use vstd::utf8::encode_utf8;

use super::error::{mismatch, seen, MergeError, MergeErrorView, Outcome, Result};
use super::ids::{
    bytes_of, folded, framed, sha256_hex, sha256_text, sort_key, update_framed,
};
use super::opened::{all_well_formed, OpenedPak, OpenedPakView};
use super::providers::{
    canonical_bytes, entry_at, inventory_entry, map_canonical_entry, missing_component,
    missing_package_component, GroupProvider, GroupProviderView,
};
use super::uasset::{parse_uasset_shell, shell_of};
use crate::lists::{views, views_push};
use crate::pak::paths::{PackageComponent, PackageGroup, PackageGroupView};
use crate::text::{
    ascii_lowercase, cat2, cat3, chars_of, dec, decimal, decimal_usize, same_text, signed_dec,
    signed_decimal, text_take, texts, to_ascii_lowercase,
};

verus! {

/// A value of a database. `encoding` is the reader's name for how it is stored.
#[derive(Debug)]
pub struct Node {
    pub marker: u8,
    pub encoding: String,
    pub kind: NodeKind,
}

/// What a value is.
#[derive(Debug)]
pub enum NodeKind {
    Nil,
    Boolean(bool),
    Signed(i64),
    Unsigned(u64),
    /// A floating-point number, as it is printed.
    Float(String),
    Text(String),
    /// The number of bytes.
    Binary(usize),
    Array(Vec<Node>),
    /// The values of a map, in the order of its entries.
    Table(Vec<Node>),
    Extension { type_tag: i8, len: usize },
}

/// The positive integers among the leaves of a value, in order. Keys of maps do
/// not count.
pub open spec fn positive_leaves(node: Node) -> Seq<u64>
    decreases node, 0int,
{
    match node.kind {
        NodeKind::Signed(value) => if value > 0 {
            seq![value as u64]
        } else {
            Seq::empty()
        },
        NodeKind::Unsigned(value) => if value > 0 {
            seq![value]
        } else {
            Seq::empty()
        },
        NodeKind::Array(items) => positive_leaves_of(items@, items@.len() as int),
        NodeKind::Table(items) => positive_leaves_of(items@, items@.len() as int),
        _ => Seq::empty(),
    }
}

/// The positive integers among the leaves of the first `count` values.
pub open spec fn positive_leaves_of(items: Seq<Node>, count: int) -> Seq<u64>
    decreases items, count,
{
    if count <= 0 || count > items.len() {
        Seq::empty()
    } else {
        positive_leaves_of(items, count - 1) + positive_leaves(items[count - 1])
    }
}

/// Appends the positive integers among the leaves of a value.
pub fn visit_positive_integer_leaves(node: &Node, found: &mut Vec<u64>)
    ensures
        final(found)@ == old(found)@ + positive_leaves(*node),
    decreases node, 0int,
{
    match &node.kind {
        NodeKind::Signed(value) => {
            if *value > 0 {
                found.push(*value as u64);
            }
            assert(found@ =~= old(found)@ + positive_leaves(*node));
        },
        NodeKind::Unsigned(value) => {
            if *value > 0 {
                found.push(*value);
            }
            assert(found@ =~= old(found)@ + positive_leaves(*node));
        },
        NodeKind::Array(items) => {
            visit_items(items, found);
        },
        NodeKind::Table(items) => {
            visit_items(items, found);
        },
        _ => {
            assert(found@ =~= old(found)@ + positive_leaves(*node));
        },
    }
}

fn visit_items(items: &Vec<Node>, found: &mut Vec<u64>)
    ensures
        final(found)@ == old(found)@ + positive_leaves_of(items@, items@.len() as int),
    decreases items@, items@.len() + 1,
{
    let ghost before = found@;
    let mut at: usize = 0;
    assert(found@ =~= before + positive_leaves_of(items@, 0));
    while at < items.len()
        invariant
            at <= items@.len(),
            found@ == before + positive_leaves_of(items@, at as int),
        decreases items.len() - at,
    {
        visit_positive_integer_leaves(&items[at], found);
        assert(found@ =~= before + positive_leaves_of(items@, at as int + 1));
        at += 1;
    }
}

/// What is shown of a value, before it is shortened.
pub open spec fn node_text(node: Node) -> Seq<char> {
    match node.kind {
        NodeKind::Nil => "null"@,
        NodeKind::Boolean(value) => if value {
            "true"@
        } else {
            "false"@
        },
        NodeKind::Signed(value) => signed_dec(value as int),
        NodeKind::Unsigned(value) => dec(value as nat),
        NodeKind::Float(text) => text@,
        NodeKind::Text(text) => "\""@ + text@ + "\""@,
        NodeKind::Binary(len) => "binary["@ + dec(len as nat) + "]"@,
        NodeKind::Array(items) => "array["@ + dec(items@.len()) + "]"@,
        NodeKind::Table(items) => "map["@ + dec(items@.len()) + "]"@,
        NodeKind::Extension { type_tag, len } => "extension(type="@ + signed_dec(type_tag as int)
            + ", "@ + dec(len as nat) + " bytes)"@,
    }
}

/// A text of at most 160 characters; of a longer one the first 159.
pub open spec fn shortened(text: Seq<char>) -> Seq<char> {
    if text.len() > 160 {
        text.take(159) + "…"@
    } else {
        text
    }
}

/// What is shown of a value.
pub fn preview_node(node: &Node) -> (result: String)
    ensures
        result@ == shortened(node_text(*node)),
{
    let text = match &node.kind {
        NodeKind::Nil => "null".to_owned(),
        NodeKind::Boolean(value) => if *value {
            "true".to_owned()
        } else {
            "false".to_owned()
        },
        NodeKind::Signed(value) => signed_decimal(*value),
        NodeKind::Unsigned(value) => decimal(*value),
        NodeKind::Float(text) => text.clone(),
        NodeKind::Text(text) => cat3("\"", text.as_str(), "\""),
        NodeKind::Binary(len) => cat3("binary[", decimal_usize(*len).as_str(), "]"),
        NodeKind::Array(items) => cat3("array[", decimal_usize(items.len()).as_str(), "]"),
        NodeKind::Table(items) => cat3("map[", decimal_usize(items.len()).as_str(), "]"),
        NodeKind::Extension { type_tag, len } => crate::text::cat5(
            "extension(type=",
            signed_decimal(*type_tag as i64).as_str(),
            ", ",
            decimal_usize(*len).as_str(),
            " bytes)",
        ),
    };
    if chars_of(text.as_str()).len() > 160 {
        cat2(text_take(text.as_str(), 159).as_str(), "…")
    } else {
        text
    }
}

/// Fields of a row that are chosen together.
#[derive(Debug)]
pub struct AtomicGroup {
    pub id: String,
    pub fields: Vec<String>,
    pub compound: bool,
    /// Where the unit is one element of arrays: its place, and the length that
    /// the arrays must have.
    pub array_index: Option<usize>,
    pub expected_array_len: Option<usize>,
}

#[verifier::ext_equal]
pub struct AtomicGroupView {
    pub id: Seq<char>,
    pub fields: Seq<Seq<char>>,
    pub compound: bool,
    pub array_index: Option<usize>,
    pub expected_array_len: Option<usize>,
}

impl View for AtomicGroup {
    type V = AtomicGroupView;

    open spec fn view(&self) -> AtomicGroupView {
        AtomicGroupView {
            id: self.id@,
            fields: texts(self.fields@),
            compound: self.compound,
            array_index: self.array_index,
            expected_array_len: self.expected_array_len,
        }
    }
}

fn same_place(left: Option<usize>, right: Option<usize>) -> (result: bool)
    ensures
        result == (left == right),
{
    match (left, right) {
        (Some(left), Some(right)) => left == right,
        (None, None) => true,
        _ => false,
    }
}

/// Whether two units are the same.
pub fn same_unit(left: &AtomicGroup, right: &AtomicGroup) -> (result: bool)
    ensures
        result == (left@ == right@),
{
    same_text(left.id.as_str(), right.id.as_str()) && crate::text::same_texts(
        &left.fields,
        &right.fields,
    ) && left.compound == right.compound && same_place(left.array_index, right.array_index)
        && same_place(left.expected_array_len, right.expected_array_len)
}

/// A value of a unit and the bytes that store it.
#[derive(Debug)]
pub struct FieldValue {
    pub node: Node,
    pub raw: Vec<u8>,
}

/// The digests of the values of a unit.
#[derive(Debug)]
pub struct UnitHashes {
    pub raw_sha256: String,
    pub semantic_sha256: String,
}

/// A unit of a row: its digests, and for each field the value, or the reader's
/// message where it could not be had.
#[derive(Debug)]
pub struct RowUnit {
    pub group: AtomicGroup,
    pub hashes: std::result::Result<UnitHashes, String>,
    pub values: Vec<std::result::Result<FieldValue, String>>,
}

/// A row of a database.
#[derive(Debug)]
pub struct DatabaseRow {
    pub id: i64,
    pub marker: u8,
    /// The bytes that store the row.
    pub raw: Vec<u8>,
    pub raw_sha256: String,
    pub semantic_sha256: String,
    /// The named fields, in the order in which they are stored.
    pub fields: Vec<(String, Node)>,
    /// The units of the row, or the message of the planner.
    pub units: std::result::Result<Vec<RowUnit>, String>,
}

/// The names of the fields of a row.
pub open spec fn field_names(row: DatabaseRow) -> Seq<Seq<char>> {
    row.fields@.map_values(|field: (String, Node)| field.0@)
}

/// The first field under a name.
pub open spec fn field_from(fields: Seq<(String, Node)>, name: Seq<char>) -> Option<Node>
    decreases fields.len(),
{
    if fields.len() == 0 {
        None
    } else if fields[0].0@ == name {
        Some(fields[0].1)
    } else {
        field_from(fields.skip(1), name)
    }
}

/// The first field under a name.
pub fn map_get<'b>(row: &'b DatabaseRow, name: &str) -> (result: Option<&'b Node>)
    ensures
        match (result, field_from(row.fields@, name@)) {
            (Some(node), Some(wanted)) => *node == wanted,
            (None, None) => true,
            _ => false,
        },
{
    let mut at: usize = 0;
    assert(row.fields@.skip(0) =~= row.fields@);
    while at < row.fields.len()
        invariant
            at <= row.fields@.len(),
            field_from(row.fields@, name@) == field_from(row.fields@.skip(at as int), name@),
        decreases row.fields.len() - at,
    {
        proof {
            assert(row.fields@.skip(at as int)[0] == row.fields@[at as int]);
            assert(row.fields@.skip(at as int).skip(1) =~= row.fields@.skip(at as int + 1));
        }
        if same_text(row.fields[at].0.as_str(), name) {
            return Some(&row.fields[at].1);
        }
        at += 1;
    }
    None
}

/// Whether two rows have the same fields in the same order.
pub fn same_field_order(left: &DatabaseRow, right: &DatabaseRow) -> (result: bool)
    ensures
        result == (field_names(*left) == field_names(*right)),
{
    if left.fields.len() != right.fields.len() {
        assert(field_names(*left).len() != field_names(*right).len());
        return false;
    }
    let mut at: usize = 0;
    while at < left.fields.len()
        invariant
            at <= left.fields@.len() == right.fields@.len(),
            forall|i: int| 0 <= i < at ==> field_names(*left)[i] == field_names(*right)[i],
        decreases left.fields.len() - at,
    {
        if !same_text(left.fields[at].0.as_str(), right.fields[at].0.as_str()) {
            assert(field_names(*left)[at as int] != field_names(*right)[at as int]);
            return false;
        }
        at += 1;
    }
    assert(field_names(*left) =~= field_names(*right));
    true
}

/// A database: its rows, and the bytes around the row list.
#[derive(Debug)]
pub struct DatabaseAsset {
    pub prefix: Vec<u8>,
    pub payload: Vec<u8>,
    /// The row list is `payload[list_start..list_end]`.
    pub list_start: usize,
    pub list_end: usize,
    pub footer: Vec<u8>,
    pub package_tag: Vec<u8>,
    pub rows: Vec<DatabaseRow>,
}

impl DatabaseAsset {
    /// The prefix holds the payload's length, and the row list lies inside the
    /// payload.
    pub open spec fn well_formed(&self) -> bool {
        self.prefix@.len() >= 10 && self.list_start <= self.list_end <= self.payload@.len()
    }
}

/// The first row with an id.
pub open spec fn row_from(rows: Seq<DatabaseRow>, id: i64) -> Option<DatabaseRow>
    decreases rows.len(),
{
    if rows.len() == 0 {
        None
    } else if rows[0].id == id {
        Some(rows[0])
    } else {
        row_from(rows.skip(1), id)
    }
}

/// The row with an id.
pub fn indexed_row<'b>(asset: &'b DatabaseAsset, row_id: i64) -> (result: Option<&'b DatabaseRow>)
    ensures
        match (result, row_from(asset.rows@, row_id)) {
            (Some(row), Some(wanted)) => *row == wanted,
            (None, None) => true,
            _ => false,
        },
{
    let mut at: usize = 0;
    assert(asset.rows@.skip(0) =~= asset.rows@);
    while at < asset.rows.len()
        invariant
            at <= asset.rows@.len(),
            row_from(asset.rows@, row_id) == row_from(asset.rows@.skip(at as int), row_id),
        decreases asset.rows.len() - at,
    {
        proof {
            assert(asset.rows@.skip(at as int)[0] == asset.rows@[at as int]);
            assert(asset.rows@.skip(at as int).skip(1) =~= asset.rows@.skip(at as int + 1));
        }
        if asset.rows[at].id == row_id {
            return Some(&asset.rows[at]);
        }
        at += 1;
    }
    None
}

/// Why a database could not be read.
#[derive(Debug)]
pub enum ReadFailure {
    Cancelled,
    /// The file is no database: the message of the reader.
    Failed(String),
    /// The database opens, but one of its rows cannot be read: the message of the
    /// reader.
    Row(String),
}

/// What the reader made of the bytes of a `.uexp`.
pub type Reading = std::result::Result<DatabaseAsset, ReadFailure>;

/// A provider of a database, read.
#[derive(Debug)]
pub struct ParsedDbProvider {
    pub input_index: usize,
    pub group: PackageGroup,
    pub uasset: Vec<u8>,
    pub uexp_size: usize,
    pub asset: DatabaseAsset,
}

#[verifier::ext_equal]
pub struct ParsedDbProviderView {
    pub input_index: usize,
    pub group: PackageGroupView,
    pub uasset: Seq<u8>,
    pub uexp_size: usize,
    pub asset: DatabaseAsset,
}

impl View for ParsedDbProvider {
    type V = ParsedDbProviderView;

    open spec fn view(&self) -> ParsedDbProviderView {
        ParsedDbProviderView {
            input_index: self.input_index,
            group: self.group@,
            uasset: self.uasset@,
            uexp_size: self.uexp_size,
            asset: self.asset,
        }
    }
}

/// A provider names an input that is there, its package has a header and a
/// database, and the database is in order.
pub open spec fn provider_well(provider: ParsedDbProviderView, inputs: nat) -> bool {
    &&& provider.input_index < inputs
    &&& provider.group.components.uasset is Some
    &&& provider.group.components.uexp is Some
    &&& provider.asset.well_formed()
}

pub open spec fn parsed_well(parsed: Seq<ParsedDbProvider>, inputs: nat) -> bool {
    forall|i: int| 0 <= i < parsed.len() ==> provider_well((#[trigger] parsed[i])@, inputs)
}

/// The bytes that the databases of all providers take together.
pub open spec fn index_total_from(
    total: int,
    opened: Seq<OpenedPakView>,
    providers: Seq<GroupProviderView>,
    at: int,
) -> Outcome<int>
    decreases providers.len() - at,
{
    if at >= providers.len() {
        Ok(total)
    } else {
        match providers[at].group.components.uexp {
            None => missing_component(providers[at].group, PackageComponent::Uexp),
            Some(path) => match entry_at(opened[providers[at].input_index as int], path) {
                Err(error) => Err(error),
                Ok(entry) => if total + entry.size > u64::MAX {
                    Err(MergeErrorView::SizeOverflow("database index"@))
                } else {
                    index_total_from(total + entry.size, opened, providers, at + 1)
                },
            },
        }
    }
}

/// One provider's database, with the reader's outcome for its `.uexp`.
pub open spec fn loaded_one(
    opened: Seq<OpenedPakView>,
    provider: GroupProviderView,
    reading: Reading,
) -> Outcome<ParsedDbProviderView> {
    let input = opened[provider.input_index as int];
    match provider.group.components.uasset {
        None => missing_component(provider.group, PackageComponent::Uasset),
        Some(uasset_path) => match provider.group.components.uexp {
            None => missing_component(provider.group, PackageComponent::Uexp),
            Some(uexp_path) => match canonical_bytes(input, uexp_path) {
                Err(error) => Err(error),
                Ok(uexp) => match canonical_bytes(input, uasset_path) {
                    Err(error) => Err(error),
                    Ok(uasset) => match reading {
                        Err(ReadFailure::Cancelled) => Err(MergeErrorView::Cancelled),
                        Err(ReadFailure::Failed(text)) | Err(ReadFailure::Row(text)) => Err(
                            MergeErrorView::BinaryAsset(text@),
                        ),
                        Ok(asset) => Ok(
                            ParsedDbProviderView {
                                input_index: provider.input_index,
                                group: provider.group,
                                uasset,
                                uexp_size: uexp.len() as usize,
                                asset,
                            },
                        ),
                    },
                },
            },
        },
    }
}

pub open spec fn loaded_from(
    done: Seq<ParsedDbProviderView>,
    opened: Seq<OpenedPakView>,
    providers: Seq<GroupProviderView>,
    readings: Seq<Reading>,
) -> Outcome<Seq<ParsedDbProviderView>>
    decreases providers.len(),
{
    if providers.len() == 0 {
        Ok(done)
    } else {
        match loaded_one(opened, providers[0], readings[0]) {
            Err(error) => Err(error),
            Ok(parsed) => loaded_from(
                done.push(parsed),
                opened,
                providers.skip(1),
                readings.skip(1),
            ),
        }
    }
}

/// The databases of all providers.
pub open spec fn loaded(
    opened: Seq<OpenedPakView>,
    providers: Seq<GroupProviderView>,
    readings: Seq<Reading>,
) -> Outcome<Seq<ParsedDbProviderView>> {
    match index_total_from(0, opened, providers, 0) {
        Err(error) => Err(error),
        Ok(_) => loaded_from(Seq::empty(), opened, providers, readings),
    }
}

#[verifier::loop_isolation(false)]
fn check_index_total(opened: &Vec<OpenedPak>, providers: &Vec<GroupProvider>) -> (result: Result<u64>)
    requires
        all_well_formed(opened@),
        forall|i: int|
            0 <= i < providers@.len() ==> (#[trigger] providers@[i]).input_index < opened@.len(),
    ensures
        match (result, index_total_from(0, views(opened@), views(providers@), 0)) {
            (Ok(total), Ok(wanted)) => total == wanted,
            (Err(error), Err(wanted)) => error@ == wanted,
            _ => false,
        },
{
    let ghost all = views(providers@);
    let ghost inputs = views(opened@);
    let mut total: u64 = 0;
    let mut at: usize = 0;
    while at < providers.len()
        invariant
            at <= providers@.len(),
            index_total_from(0, inputs, all, 0) == index_total_from(
                total as int,
                inputs,
                all,
                at as int,
            ),
        decreases providers.len() - at,
    {
        let provider = &providers[at];
        let index: usize = provider.input_index;
        proof {
            assert(all[at as int] == provider@);
            assert(inputs[index as int] == opened@[index as int]@);
            assert(opened@[index as int].well_formed());
        }
        match &provider.group.components.uexp {
            None => {
                return Err(missing_package_component(&provider.group, PackageComponent::Uexp));
            },
            Some(path) => {
                let size: u64 = match inventory_entry(&opened[index], path.as_str()) {
                    Ok(entry) => entry.size,
                    Err(error) => {
                        return Err(error);
                    },
                };
                match total.checked_add(size) {
                    Some(sum) => {
                        total = sum;
                    },
                    None => {
                        return Err(MergeError::SizeOverflow("database index"));
                    },
                }
            },
        }
        at += 1;
    }
    Ok(total)
}

fn load_one(opened: &Vec<OpenedPak>, provider: &GroupProvider, reading: Reading) -> (result: Result<
    ParsedDbProvider,
>)
    requires
        all_well_formed(opened@),
        provider.input_index < opened@.len(),
    ensures
        seen(result) == loaded_one(views(opened@), provider@, reading),
{
    let index: usize = provider.input_index;
    proof {
        assert(views(opened@)[index as int] == opened@[index as int]@);
        assert(opened@[index as int].well_formed());
    }
    let uasset_path = match &provider.group.components.uasset {
        Some(path) => path,
        None => {
            return Err(missing_package_component(&provider.group, PackageComponent::Uasset));
        },
    };
    let uexp_path = match &provider.group.components.uexp {
        Some(path) => path,
        None => {
            return Err(missing_package_component(&provider.group, PackageComponent::Uexp));
        },
    };
    let uexp_size: usize = match map_canonical_entry(&opened[index], uexp_path.as_str()) {
        Ok(bytes) => bytes.as_ref().len(),
        Err(error) => {
            return Err(error);
        },
    };
    let uasset = match map_canonical_entry(&opened[index], uasset_path.as_str()) {
        Ok(bytes) => slice_to_vec(bytes.as_ref()),
        Err(error) => {
            return Err(error);
        },
    };
    match reading {
        Err(ReadFailure::Cancelled) => Err(MergeError::Cancelled),
        Err(ReadFailure::Failed(text)) => Err(MergeError::BinaryAsset(text)),
        Err(ReadFailure::Row(text)) => Err(MergeError::BinaryAsset(text)),
        Ok(asset) => Ok(
            ParsedDbProvider {
                input_index: index,
                group: provider.group.copy(),
                uasset,
                uexp_size,
                asset,
            },
        ),
    }
}

/// The outcome of a step that yields read databases.
pub open spec fn same_parsed(
    result: Result<Vec<ParsedDbProvider>>,
    wanted: Outcome<Seq<ParsedDbProviderView>>,
) -> bool {
    match (result, wanted) {
        (Ok(list), Ok(expected)) => views(list@) == expected,
        (Err(error), Err(expected)) => error@ == expected,
        _ => false,
    }
}

/// The readings of well-formed databases.
pub open spec fn readings_well(readings: Seq<Reading>) -> bool {
    forall|i: int|
        0 <= i < readings.len() ==> (#[trigger] readings[i] matches Ok(asset) ==> asset.well_formed())
}

/// Puts the readings of a package's databases beside their providers.
#[verifier::loop_isolation(false)]
pub fn load_cached_database(
    opened: &Vec<OpenedPak>,
    providers: &Vec<GroupProvider>,
    readings: Vec<Reading>,
) -> (result: Result<Vec<ParsedDbProvider>>)
    requires
        all_well_formed(opened@),
        readings@.len() == providers@.len(),
        readings_well(readings@),
        forall|i: int|
            0 <= i < providers@.len() ==> (#[trigger] providers@[i]).input_index < opened@.len(),
    ensures
        same_parsed(result, loaded(views(opened@), views(providers@), readings@)),
        result matches Ok(parsed) ==> parsed_well(parsed@, opened@.len()) && parsed@.len()
            == providers@.len(),
{
    check_index_total(opened, providers)?;
    let ghost all = views(providers@);
    let ghost inputs = views(opened@);
    let ghost all_readings = readings@;
    let mut rest = readings;
    let mut parsed: Vec<ParsedDbProvider> = Vec::new();
    let mut at: usize = 0;
    proof {
        assert(all.skip(0) =~= all);
        assert(all_readings.skip(0) =~= all_readings);
        assert(views(parsed@) =~= Seq::<ParsedDbProviderView>::empty());
    }
    while at < providers.len()
        invariant
            at <= providers@.len(),
            parsed@.len() == at,
            rest@ == all_readings.skip(at as int),
            parsed_well(parsed@, opened@.len()),
            loaded_from(Seq::empty(), inputs, all, all_readings) == loaded_from(
                views(parsed@),
                inputs,
                all.skip(at as int),
                all_readings.skip(at as int),
            ),
        decreases providers.len() - at,
    {
        let reading = rest.remove(0);
        proof {
            assert(all_readings.skip(at as int)[0] == all_readings[at as int]);
            assert(reading == all_readings[at as int]);
            assert(rest@ =~= all_readings.skip(at as int + 1));
            assert(all.skip(at as int)[0] == providers@[at as int]@);
            assert(all.skip(at as int).skip(1) =~= all.skip(at as int + 1));
            assert(all_readings.skip(at as int).skip(1) =~= all_readings.skip(at as int + 1));
        }
        let one = match load_one(opened, &providers[at], reading) {
            Ok(one) => one,
            Err(error) => {
                return Err(error);
            },
        };
        proof {
            views_push(parsed@, one);
        }
        parsed.push(one);
        at += 1;
    }
    Ok(parsed)
}

/// The prefix with the payload's length blanked.
pub open spec fn blanked_prefix(prefix: Seq<u8>) -> Seq<u8> {
    prefix.take(6) + seq![0u8, 0u8, 0u8, 0u8] + prefix.skip(10)
}

/// The digest of everything in a database but its row list.
pub open spec fn shell_digest(asset: DatabaseAsset) -> Seq<char> {
    sha256_text(
        encode_utf8("PAK-MERGER-BINARY-ASSET-SHELL-V1"@) + framed(blanked_prefix(asset.prefix@))
            + framed(asset.payload@.take(asset.list_start as int)) + framed(
            asset.payload@.skip(asset.list_end as int),
        ) + framed(asset.footer@) + framed(asset.package_tag@),
    )
}

pub fn database_shell_digest(asset: &DatabaseAsset) -> (result: String)
    requires
        asset.well_formed(),
    ensures
        result@ == shell_digest(*asset),
{
    let mut prefix = slice_to_vec(asset.prefix.as_slice());
    prefix.set(6, 0);
    prefix.set(7, 0);
    prefix.set(8, 0);
    prefix.set(9, 0);
    assert(prefix@ =~= blanked_prefix(asset.prefix@));
    let payload = asset.payload.as_slice();
    let mut bytes = bytes_of("PAK-MERGER-BINARY-ASSET-SHELL-V1");
    update_framed(&mut bytes, prefix.as_slice());
    update_framed(&mut bytes, slice_subrange(payload, 0, asset.list_start));
    update_framed(&mut bytes, slice_subrange(payload, asset.list_end, payload.len()));
    update_framed(&mut bytes, asset.footer.as_slice());
    update_framed(&mut bytes, asset.package_tag.as_slice());
    proof {
        assert(asset.payload@.subrange(0, asset.list_start as int) =~= asset.payload@.take(
            asset.list_start as int,
        ));
        assert(asset.payload@.subrange(asset.list_end as int, asset.payload@.len() as int)
            =~= asset.payload@.skip(asset.list_end as int));
    }
    sha256_hex(bytes.as_slice())
}

/// Whether a list is not empty and holds one value throughout.
pub open spec fn uniform<W>(list: Seq<W>) -> bool {
    list.len() > 0 && forall|i: int| 0 <= i < list.len() ==> #[trigger] list[i] == list[0]
}

pub open spec fn shell_digests(parsed: Seq<ParsedDbProviderView>) -> Seq<Seq<char>> {
    parsed.map_values(|provider: ParsedDbProviderView| shell_digest(provider.asset))
}

/// What the headers of the providers say, one after the other.
pub open spec fn headers_from(
    done: Seq<(Seq<char>, Seq<char>)>,
    parsed: Seq<ParsedDbProviderView>,
) -> Outcome<Seq<(Seq<char>, Seq<char>)>>
    decreases parsed.len(),
{
    if parsed.len() == 0 {
        Ok(done)
    } else {
        match shell_of(
            parsed[0].uasset,
            parsed[0].uexp_size as int,
            Some(parsed[0].group.base_path),
        ) {
            Err(error) => Err(error),
            Ok(found) => headers_from(
                done.push((folded(found.package_path), ascii_lowercase(found.object_name))),
                parsed.skip(1),
            ),
        }
    }
}

pub open spec fn uasset_digests(parsed: Seq<ParsedDbProviderView>) -> Seq<Seq<char>> {
    parsed.map_values(|provider: ParsedDbProviderView| sha256_text(provider.uasset))
}

/// Whether the databases fit together, and then whether their headers differ.
pub open spec fn shells_compatible(parsed: Seq<ParsedDbProviderView>) -> Outcome<bool> {
    if !uniform(shell_digests(parsed)) {
        mismatch(
            "BinaryAsset prefix/root-outside-m_DataList/footer/package-tag fingerprints differ"@,
        )
    } else {
        match headers_from(Seq::empty(), parsed) {
            Err(error) => Err(error),
            Ok(headers) => if !uniform(headers) {
                mismatch("the .uasset files identify different BinaryAsset packages or objects"@)
            } else {
                Ok(!uniform(uasset_digests(parsed)))
            },
        }
    }
}

/// Whether a list of texts holds one text throughout.
fn is_uniform(list: &Vec<String>) -> (result: bool)
    ensures
        result == uniform(texts(list@)),
{
    if list.len() == 0 {
        return false;
    }
    let mut at: usize = 0;
    while at < list.len()
        invariant
            at <= list@.len(),
            0 < list@.len(),
            forall|i: int| 0 <= i < at ==> #[trigger] texts(list@)[i] == texts(list@)[0],
        decreases list.len() - at,
    {
        if !same_text(list[at].as_str(), list[0].as_str()) {
            assert(texts(list@)[at as int] != texts(list@)[0]);
            return false;
        }
        at += 1;
    }
    true
}

fn list_shell_digests(parsed: &Vec<ParsedDbProvider>) -> (result: Vec<String>)
    requires
        forall|i: int| 0 <= i < parsed@.len() ==> (#[trigger] parsed@[i]).asset.well_formed(),
    ensures
        texts(result@) == shell_digests(views(parsed@)),
{
    let ghost all = shell_digests(views(parsed@));
    let mut result: Vec<String> = Vec::new();
    let mut at: usize = 0;
    while at < parsed.len()
        invariant
            at <= parsed@.len(),
            all == shell_digests(views(parsed@)),
            forall|i: int| 0 <= i < parsed@.len() ==> (#[trigger] parsed@[i]).asset.well_formed(),
            texts(result@) == all.take(at as int),
        decreases parsed.len() - at,
    {
        let digest = database_shell_digest(&parsed[at].asset);
        proof {
            crate::text::texts_push(result@, digest);
            assert(views(parsed@)[at as int] == parsed@[at as int]@);
            assert(all[at as int] == digest@);
            assert(all.take(at as int + 1) =~= all.take(at as int).push(digest@));
        }
        result.push(digest);
        at += 1;
    }
    assert(all.take(at as int) =~= all);
    result
}

fn list_uasset_digests(parsed: &Vec<ParsedDbProvider>) -> (result: Vec<String>)
    ensures
        texts(result@) == uasset_digests(views(parsed@)),
{
    let ghost all = uasset_digests(views(parsed@));
    let mut result: Vec<String> = Vec::new();
    let mut at: usize = 0;
    while at < parsed.len()
        invariant
            at <= parsed@.len(),
            all == uasset_digests(views(parsed@)),
            texts(result@) == all.take(at as int),
        decreases parsed.len() - at,
    {
        let digest = sha256_hex(parsed[at].uasset.as_slice());
        proof {
            crate::text::texts_push(result@, digest);
            assert(views(parsed@)[at as int] == parsed@[at as int]@);
            assert(all[at as int] == digest@);
            assert(all.take(at as int + 1) =~= all.take(at as int).push(digest@));
        }
        result.push(digest);
        at += 1;
    }
    assert(all.take(at as int) =~= all);
    result
}

pub open spec fn header_views(headers: Seq<(String, String)>) -> Seq<(Seq<char>, Seq<char>)> {
    headers.map_values(|header: (String, String)| (header.0@, header.1@))
}

#[verifier::loop_isolation(false)]
fn read_headers(parsed: &Vec<ParsedDbProvider>) -> (result: Result<Vec<(String, String)>>)
    ensures
        match (result, headers_from(Seq::empty(), views(parsed@))) {
            (Ok(headers), Ok(wanted)) => header_views(headers@) == wanted,
            (Err(error), Err(wanted)) => error@ == wanted,
            _ => false,
        },
{
    let ghost all = views(parsed@);
    let mut headers: Vec<(String, String)> = Vec::new();
    let mut at: usize = 0;
    proof {
        assert(all.skip(0) =~= all);
        assert(header_views(headers@) =~= Seq::<(Seq<char>, Seq<char>)>::empty());
    }
    while at < parsed.len()
        invariant
            at <= parsed@.len(),
            headers_from(Seq::empty(), all) == headers_from(
                header_views(headers@),
                all.skip(at as int),
            ),
        decreases parsed.len() - at,
    {
        proof {
            assert(all.skip(at as int)[0] == parsed@[at as int]@);
            assert(all.skip(at as int).skip(1) =~= all.skip(at as int + 1));
        }
        let found = match parse_uasset_shell(
            parsed[at].uasset.as_slice(),
            parsed[at].uexp_size,
            Some(parsed[at].group.base_path.as_str()),
        ) {
            Ok(found) => found,
            Err(error) => {
                return Err(error);
            },
        };
        let header = (
            sort_key(found.package_path.as_str()),
            to_ascii_lowercase(found.object_name.as_str()),
        );
        proof {
            assert(header_views(headers@.push(header)) =~= header_views(headers@).push(
                (header.0@, header.1@),
            ));
        }
        headers.push(header);
        at += 1;
    }
    Ok(headers)
}

fn headers_agree(headers: &Vec<(String, String)>) -> (result: bool)
    ensures
        result == uniform(header_views(headers@)),
{
    if headers.len() == 0 {
        return false;
    }
    let ghost all = header_views(headers@);
    let mut at: usize = 0;
    while at < headers.len()
        invariant
            at <= headers@.len(),
            0 < headers@.len(),
            all == header_views(headers@),
            forall|i: int| 0 <= i < at ==> #[trigger] all[i] == all[0],
        decreases headers.len() - at,
    {
        if !same_text(headers[at].0.as_str(), headers[0].0.as_str()) || !same_text(
            headers[at].1.as_str(),
            headers[0].1.as_str(),
        ) {
            assert(all[at as int] != all[0]);
            return false;
        }
        at += 1;
    }
    true
}

/// Checks that databases fit together, and tells whether their headers differ.
pub fn validate_database_shell_compatibility(parsed: &Vec<ParsedDbProvider>) -> (result: Result<bool>)
    requires
        forall|i: int| 0 <= i < parsed@.len() ==> (#[trigger] parsed@[i]).asset.well_formed(),
    ensures
        seen(result) == shells_compatible(views(parsed@)),
{
    if !is_uniform(&list_shell_digests(parsed)) {
        return Err(
            MergeError::DatabaseStructureMismatch(
                "BinaryAsset prefix/root-outside-m_DataList/footer/package-tag fingerprints differ".to_owned(),
            ),
        );
    }
    let headers = match read_headers(parsed) {
        Ok(headers) => headers,
        Err(error) => {
            return Err(error);
        },
    };
    if !headers_agree(&headers) {
        return Err(
            MergeError::DatabaseStructureMismatch(
                "the .uasset files identify different BinaryAsset packages or objects".to_owned(),
            ),
        );
    }
    Ok(!is_uniform(&list_uasset_digests(parsed)))
}

/// The bytes of a package's files, added to a total.
pub open spec fn paths_total_from(total: int, input: OpenedPakView, paths: Seq<Seq<char>>) -> Outcome<
    int,
>
    decreases paths.len(),
{
    if paths.len() == 0 {
        Ok(total)
    } else {
        match entry_at(input, paths[0]) {
            Err(error) => Err(error),
            Ok(entry) => if total + entry.size > u64::MAX {
                Err(MergeErrorView::SizeOverflow("database cache"@))
            } else {
                paths_total_from(total + entry.size, input, paths.skip(1))
            },
        }
    }
}

/// The bytes of a package in all its providers.
pub open spec fn provider_bytes_from(
    total: int,
    opened: Seq<OpenedPakView>,
    providers: Seq<GroupProviderView>,
    at: int,
) -> Outcome<int>
    decreases providers.len() - at,
{
    if at >= providers.len() {
        Ok(total)
    } else {
        match paths_total_from(
            total,
            opened[providers[at].input_index as int],
            providers[at].group.components.paths(),
        ) {
            Err(error) => Err(error),
            Ok(sum) => provider_bytes_from(sum, opened, providers, at + 1),
        }
    }
}

#[verifier::loop_isolation(false)]
fn add_path_sizes(start: u64, input: &OpenedPak, paths: &Vec<String>) -> (result: Result<u64>)
    requires
        input.well_formed(),
    ensures
        match (result, paths_total_from(start as int, input@, texts(paths@))) {
            (Ok(total), Ok(wanted)) => total == wanted,
            (Err(error), Err(wanted)) => error@ == wanted,
            _ => false,
        },
{
    let ghost all = texts(paths@);
    let mut total: u64 = start;
    let mut at: usize = 0;
    assert(all.skip(0) =~= all);
    while at < paths.len()
        invariant
            at <= paths@.len(),
            paths_total_from(start as int, input@, all) == paths_total_from(
                total as int,
                input@,
                all.skip(at as int),
            ),
        decreases paths.len() - at,
    {
        proof {
            assert(all.skip(at as int)[0] == paths@[at as int]@);
            assert(all.skip(at as int).skip(1) =~= all.skip(at as int + 1));
        }
        let size: u64 = match inventory_entry(input, paths[at].as_str()) {
            Ok(entry) => entry.size,
            Err(error) => {
                return Err(error);
            },
        };
        match total.checked_add(size) {
            Some(sum) => {
                total = sum;
            },
            None => {
                return Err(MergeError::SizeOverflow("database cache"));
            },
        }
        at += 1;
    }
    Ok(total)
}

/// The bytes of a package in all its providers.
#[verifier::loop_isolation(false)]
pub fn database_provider_bytes(opened: &Vec<OpenedPak>, providers: &Vec<GroupProvider>) -> (result: Result<
    u64,
>)
    requires
        all_well_formed(opened@),
        forall|i: int|
            0 <= i < providers@.len() ==> (#[trigger] providers@[i]).input_index < opened@.len(),
    ensures
        match (result, provider_bytes_from(0, views(opened@), views(providers@), 0)) {
            (Ok(total), Ok(wanted)) => total == wanted,
            (Err(error), Err(wanted)) => error@ == wanted,
            _ => false,
        },
{
    let ghost all = views(providers@);
    let ghost inputs = views(opened@);
    let mut total: u64 = 0;
    let mut at: usize = 0;
    while at < providers.len()
        invariant
            at <= providers@.len(),
            provider_bytes_from(0, inputs, all, 0) == provider_bytes_from(
                total as int,
                inputs,
                all,
                at as int,
            ),
        decreases providers.len() - at,
    {
        let provider = &providers[at];
        let index: usize = provider.input_index;
        proof {
            assert(all[at as int] == provider@);
            assert(inputs[index as int] == opened@[index as int]@);
            assert(opened@[index as int].well_formed());
        }
        total = match add_path_sizes(total, &opened[index], &provider.group.components.paths()) {
            Ok(sum) => sum,
            Err(error) => {
                return Err(error);
            },
        };
        at += 1;
    }
    Ok(total)
}

} // verus!
