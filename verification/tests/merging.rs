//! Whole jobs: archives are compared, a plan is settled, and the output is written
//! and checked. A small reader and merger of databases stands in for the game's.
use std::cell::OnceCell;
use std::collections::{BTreeMap, BTreeSet};
use std::rc::Rc;

use pak_merger::merge::assembly::{
    collect_appended_ids, database_build_reports, donor_of_added_row, merged_database_reports,
    OutputRow,
};
use pak_merger::merge::audit::ReadRow;
use pak_merger::merge::choices::{plan_row, AtomicDonorSelection, RowChoice, RowContext};
use pak_merger::merge::database::{
    AtomicGroup, DatabaseAsset, DatabaseRow, FieldValue, Node, NodeKind, ReadFailure, RowUnit,
    UnitHashes,
};
use pak_merger::merge::group::carrier_position;
use pak_merger::merge::ids::sort_key;
use pak_merger::merge::opened::open_paks;
use pak_merger::merge::output::write_progress;
use pak_merger::merge::providers::{
    map_canonical_entry, profile_inventory, unit_requires_database_parse, AnalysisUnit,
};
use pak_merger::merge::references::{
    reference_tables, validate_known_references_in_archive,
    validate_references_for_pinned_profile,
};
use pak_merger::merge::resolve::build_asset_conflict_index;
use pak_merger::merge::rows::MAX_ENCODING_DRIFT_SAMPLES_PER_ASSET;
use pak_merger::merge::uasset::patch_serial_size;
use pak_merger::merge::units::collect_units;
use pak_merger::merge::write::{checking_inputs, finalizing, settle_session};
use pak_merger::merge::{
    analyze, analyze_with_archives, analyze_with_archives_and_cancel, resolve, verify,
    write_session_with_options_and_progress, write_session_with_options_progress_and_cancel,
    write_with_options, write_with_options_and_progress, AnalysisRequest, AssetActionKind,
    ConflictKind, DatabaseSupply, FileSize, FileStamp, InputArchive, MergeAnalysisSession, MergeError, MergePlan, MergeProgress,
    MergeProgressStage, MergeReport, OutputPlace, OutputTarget, OutputTargetStamp, PathName,
    PreparedMerge, ProfileDetection, ProfileDetectionStatus, Reading, ReopenedInputs,
    ResolutionSet, ResolvedPlan, VerificationResult, WriteOptions,
};
use pak_merger::pak::archive::{OutsideReading, SecondReading};
use pak_merger::pak::decode::DecoderOutput;
use pak_merger::pak::index::fnv64_path;
use pak_merger::pak::{PakArchive, PakVersion, PakWriteProgress};
use sha1::{Digest, Sha1};
use sha2::Sha256;

const MOUNT: &str = "../../../Example/Content/";
const SEED: u64 = 0x1234_5678;
const PAK_MAGIC: u32 = 0x5A6F_12E1;
const PREFIX_SIZE: usize = 10;
const PACKAGE_TAG_SIZE: usize = 4;
const STEPS_PER_UNIT: usize = 100;
const OT0_PROFILE_ID: &str = "octopath_traveler_0";

/// A file as an archive stores it: its stored bytes, its logical size, and for a
/// compressed file the sizes of its stored blocks and the logical block size.
struct Stored {
    path: String,
    bytes: Vec<u8>,
    size: u64,
    blocks: Option<(Vec<u64>, u32)>,
}

fn plain(path: &str, bytes: &[u8]) -> Stored {
    Stored {
        path: path.to_owned(),
        bytes: bytes.to_vec(),
        size: bytes.len() as u64,
        blocks: None,
    }
}

fn put_fstring(out: &mut Vec<u8>, text: &str) {
    if text.is_ascii() {
        out.extend(((text.len() + 1) as i32).to_le_bytes());
        out.extend(text.as_bytes());
        out.push(0);
    } else {
        let units: Vec<u16> = text.encode_utf16().collect();
        out.extend((-((units.len() + 1) as i32)).to_le_bytes());
        for unit in units {
            out.extend(unit.to_le_bytes());
        }
        out.extend([0, 0]);
    }
}

/// The header that stands before a stored file.
fn file_header(file: &Stored, offset: u64, version: u32) -> Vec<u8> {
    let mut out = Vec::new();
    out.extend(offset.to_le_bytes());
    out.extend((file.bytes.len() as u64).to_le_bytes());
    out.extend(file.size.to_le_bytes());
    let method: u32 = if file.blocks.is_some() { 1 } else { 0 };
    out.extend(method.to_le_bytes());
    out.extend(Sha1::digest(&file.bytes));
    if version >= 3 {
        if let Some((sizes, _)) = &file.blocks {
            let header = 53 + 4 + 16 * sizes.len() as u64;
            out.extend((sizes.len() as u32).to_le_bytes());
            let mut at = header;
            for size in sizes {
                out.extend(at.to_le_bytes());
                at += size;
                out.extend(at.to_le_bytes());
            }
        }
        out.push(0);
        let block_size = file.blocks.as_ref().map_or(0, |blocks| blocks.1);
        out.extend(block_size.to_le_bytes());
    }
    out
}

fn encoded_record(file: &Stored, offset: u64) -> Vec<u8> {
    let mut bits: u32 = (1 << 31) | (1 << 30) | (1 << 29);
    let mut tail = Vec::new();
    let mut sizes_tail = Vec::new();
    let mut block_size_tail = Vec::new();
    if let Some((sizes, block_size)) = &file.blocks {
        bits |= 1 << 23;
        bits |= (sizes.len() as u32) << 6;
        bits |= 63;
        block_size_tail.extend(block_size.to_le_bytes());
        if sizes.len() > 1 {
            for size in sizes {
                sizes_tail.extend((*size as u32).to_le_bytes());
            }
        }
    }
    tail.extend(bits.to_le_bytes());
    tail.extend(block_size_tail);
    tail.extend((offset as u32).to_le_bytes());
    tail.extend((file.size as u32).to_le_bytes());
    if file.blocks.is_some() {
        tail.extend((file.bytes.len() as u32).to_le_bytes());
    }
    tail.extend(sizes_tail);
    tail
}

/// A version 11 archive.
fn v11_pak(mount: &str, seed: u64, files: &[Stored], slot: &str) -> Vec<u8> {
    let mut out = Vec::new();
    let mut records = Vec::new();
    let mut offsets = Vec::new();
    for file in files {
        let offset = out.len() as u64;
        offsets.push(records.len() as u32);
        records.extend(encoded_record(file, offset));
        out.extend(file_header(file, 0, 11));
        out.extend(&file.bytes);
    }
    let mut hashes = Vec::new();
    hashes.extend((files.len() as u32).to_le_bytes());
    for (file, offset) in files.iter().zip(&offsets) {
        hashes.extend(fnv64_path(&file.path, seed).to_le_bytes());
        hashes.extend(offset.to_le_bytes());
    }
    hashes.extend(0_u32.to_le_bytes());
    let mut folders: BTreeMap<String, Vec<(String, u32)>> = BTreeMap::new();
    for (file, offset) in files.iter().zip(&offsets) {
        let (folder, name) = match file.path.rsplit_once('/') {
            Some((folder, name)) => (format!("{folder}/"), name.to_owned()),
            None => ("/".to_owned(), file.path.clone()),
        };
        folders.entry(folder).or_default().push((name, *offset));
    }
    let mut directory = Vec::new();
    directory.extend((folders.len() as u32).to_le_bytes());
    for (folder, names) in &folders {
        put_fstring(&mut directory, folder);
        directory.extend((names.len() as u32).to_le_bytes());
        for (name, offset) in names {
            put_fstring(&mut directory, name);
            directory.extend(offset.to_le_bytes());
        }
    }
    let index_offset = out.len() as u64;
    let mut mount_text = Vec::new();
    put_fstring(&mut mount_text, mount);
    let index_size = mount_text.len() + 4 + 8 + 4 + 36 + 4 + 36 + 4 + records.len() + 4;
    let hashes_offset = index_offset + index_size as u64;
    let directory_offset = hashes_offset + hashes.len() as u64;
    let mut index = mount_text;
    index.extend((files.len() as u32).to_le_bytes());
    index.extend(seed.to_le_bytes());
    index.extend(1_u32.to_le_bytes());
    index.extend(hashes_offset.to_le_bytes());
    index.extend((hashes.len() as u64).to_le_bytes());
    index.extend(Sha1::digest(&hashes));
    index.extend(1_u32.to_le_bytes());
    index.extend(directory_offset.to_le_bytes());
    index.extend((directory.len() as u64).to_le_bytes());
    index.extend(Sha1::digest(&directory));
    index.extend((records.len() as u32).to_le_bytes());
    index.extend(&records);
    index.extend(0_u32.to_le_bytes());
    assert_eq!(index.len(), index_size);
    out.extend(&index);
    out.extend(&hashes);
    out.extend(&directory);
    out.extend([0; 17]);
    out.extend(PAK_MAGIC.to_le_bytes());
    out.extend(11_u32.to_le_bytes());
    out.extend(index_offset.to_le_bytes());
    out.extend((index.len() as u64).to_le_bytes());
    out.extend(Sha1::digest(&index));
    let mut slots = [0_u8; 160];
    slots[..slot.len()].copy_from_slice(slot.as_bytes());
    out.extend(slots);
    out
}

/// A version 3 archive of plain files.
fn v3_pak(mount: &str, files: &[Stored]) -> Vec<u8> {
    let mut out = Vec::new();
    let mut index = Vec::new();
    put_fstring(&mut index, mount);
    index.extend((files.len() as u32).to_le_bytes());
    for file in files {
        let offset = out.len() as u64;
        put_fstring(&mut index, &file.path);
        index.extend(file_header(file, offset, 3));
        out.extend(file_header(file, 0, 3));
        out.extend(&file.bytes);
    }
    let index_offset = out.len() as u64;
    out.extend(&index);
    out.extend(PAK_MAGIC.to_le_bytes());
    out.extend(3_u32.to_le_bytes());
    out.extend(index_offset.to_le_bytes());
    out.extend((index.len() as u64).to_le_bytes());
    out.extend(Sha1::digest(&index));
    out
}

fn fixstr(value: &str) -> Vec<u8> {
    let mut output = vec![0xa0 | value.len() as u8];
    output.extend_from_slice(value.as_bytes());
    output
}

fn test_row(id: u8, x: u8, y: u8) -> Vec<u8> {
    test_row_raw(id, &[x], &[y])
}

fn test_row_raw(id: u8, x: &[u8], y: &[u8]) -> Vec<u8> {
    let mut output = vec![0x83];
    output.extend(fixstr("m_id"));
    output.push(id);
    output.extend(fixstr("x"));
    output.extend_from_slice(x);
    output.extend(fixstr("y"));
    output.extend_from_slice(y);
    output
}

fn many_encoding_drift_fields_row(field_count: usize, use_float64: bool) -> Vec<u8> {
    let map_count = field_count + 1;
    let mut row = vec![0xDE];
    row.extend_from_slice(&(map_count as u16).to_be_bytes());
    row.extend(fixstr("m_id"));
    row.push(1);
    for index in 0..field_count {
        row.extend(fixstr(&format!("f{index:03}")));
        if use_float64 {
            row.push(0xCB);
            row.extend_from_slice(&1.0_f64.to_bits().to_be_bytes());
        } else {
            row.push(1);
        }
    }
    row
}

fn test_asset(row: Vec<u8>) -> Vec<u8> {
    test_asset_rows(vec![row])
}

fn test_asset_rows(rows: Vec<Vec<u8>>) -> Vec<u8> {
    assert!(rows.len() <= 15);
    let mut payload = vec![0x81];
    payload.extend(fixstr("m_DataList"));
    payload.push(0x90 | rows.len() as u8);
    for row in rows {
        payload.extend(row);
    }
    let mut prefix = [0x11; PREFIX_SIZE];
    prefix[6..10].copy_from_slice(&(payload.len() as u32).to_le_bytes());
    let mut output = prefix.to_vec();
    output.extend(payload);
    output.extend([0xFA, 0xFB, 0xFC, 0xFD]);
    output.extend([0xC1, 0x83, 0x2A, 0x9E]);
    output
}

fn id_only_row(id: u8) -> Vec<u8> {
    let mut row = vec![0x81];
    row.extend(fixstr("m_id"));
    row.push(id);
    row
}

fn enemy_group_row(id: u8, enemy_id: u8) -> Vec<u8> {
    let mut row = vec![0x82];
    row.extend(fixstr("m_id"));
    row.push(id);
    row.extend(fixstr("m_EnemyID"));
    row.extend([0x91, enemy_id]);
    row
}

fn npc_placement_row(
    id: u8,
    map_id: u8,
    appear_label: &str,
    label: &str,
    owner_npc: u8,
    talk_id: u8,
) -> Vec<u8> {
    let mut row = vec![0x87];
    for (field, value) in [
        ("m_id", vec![id]),
        ("m_MapID", vec![map_id]),
        ("m_AppearLabel", fixstr(appear_label)),
        ("m_label", fixstr(label)),
        ("m_OwnerNPC", vec![owner_npc]),
        ("m_TalkID", vec![talk_id]),
    ] {
        row.extend(fixstr(field));
        row.extend(value);
    }
    // A harmless extra scalar keeps the synthetic row representative of a
    // wider NpcSet map without changing the placement detector inputs.
    row.extend(fixstr("m_IconType"));
    row.push(0);
    row
}

fn append_uasset_name(output: &mut Vec<u8>, value: &str) {
    output.extend_from_slice(&((value.len() + 1) as i32).to_le_bytes());
    output.extend_from_slice(value.as_bytes());
    output.push(0);
    output.extend_from_slice(&[0; 4]);
}

fn uasset_with_metadata(
    base: &str,
    uexp_size: usize,
    package_guid_byte: u8,
    bulk_data_start_offset: Option<u64>,
    trailing_padding: usize,
) -> Vec<u8> {
    let serial_size = (uexp_size - PACKAGE_TAG_SIZE) as u64;
    let logical_base = base
        .trim_start_matches('/')
        .strip_prefix("Octopath_Traveler0/Content/")
        .unwrap_or_else(|| base.trim_start_matches('/'));
    let package_path = format!("/Game/{logical_base}");
    let object_name = logical_base.rsplit('/').next().unwrap();
    let folder_len = package_path.len() + 1;
    let folder_end = 0x24 + folder_len;
    let bulk_offset = folder_end + 0x8C;
    let name_offset = (bulk_offset + 8 + 3) & !3;
    let names = [
        package_path.as_str(),
        "/Script/CoreUObject",
        "/Script/Kingship",
        "BinaryAsset",
        "Class",
        "Default__BinaryAsset",
        object_name,
        "Package",
    ];

    let mut uasset = vec![0; name_offset];
    for name in names {
        append_uasset_name(&mut uasset, name);
    }
    while uasset.len() % 4 != 0 {
        uasset.push(0);
    }
    let import_offset = uasset.len();
    uasset.resize(import_offset + 3 * 32, 0);
    // ClassIndex -2 resolves to import 1, whose ObjectName is BinaryAsset.
    uasset[import_offset + 32 + 20..import_offset + 32 + 24]
        .copy_from_slice(&3_u32.to_le_bytes());
    while uasset.len() % 4 != 0 {
        uasset.push(0);
    }
    let export_offset = uasset.len();
    uasset.resize(export_offset + 112 + trailing_padding, 0);
    let header_size = uasset.len();

    uasset[..PACKAGE_TAG_SIZE].copy_from_slice(&[0xC1, 0x83, 0x2A, 0x9E]);
    uasset[4..8].copy_from_slice(&(-8_i32).to_le_bytes());
    uasset[0x1C..0x20].copy_from_slice(&(header_size as u32).to_le_bytes());
    uasset[0x20..0x24].copy_from_slice(&(folder_len as i32).to_le_bytes());
    uasset[0x24..0x24 + package_path.len()].copy_from_slice(package_path.as_bytes());
    uasset[0x24 + package_path.len()] = 0;
    uasset[folder_end..folder_end + 4].copy_from_slice(&0x8000_2200_u32.to_le_bytes());
    uasset[folder_end + 4..folder_end + 8].copy_from_slice(&(names.len() as u32).to_le_bytes());
    uasset[folder_end + 8..folder_end + 12]
        .copy_from_slice(&(name_offset as u32).to_le_bytes());
    uasset[folder_end + 0x1C..folder_end + 0x20].copy_from_slice(&1_u32.to_le_bytes());
    uasset[folder_end + 0x20..folder_end + 0x24]
        .copy_from_slice(&(export_offset as u32).to_le_bytes());
    uasset[folder_end + 0x24..folder_end + 0x28].copy_from_slice(&3_u32.to_le_bytes());
    uasset[folder_end + 0x28..folder_end + 0x2C]
        .copy_from_slice(&(import_offset as u32).to_le_bytes());
    uasset[folder_end + 0x40..folder_end + 0x50].fill(package_guid_byte);
    let bulk_value = bulk_data_start_offset.unwrap_or_else(|| header_size as u64 + serial_size);
    uasset[bulk_offset..bulk_offset + 8].copy_from_slice(&bulk_value.to_le_bytes());

    uasset[export_offset..export_offset + 4].copy_from_slice(&(-2_i32).to_le_bytes());
    uasset[export_offset + 0x10..export_offset + 0x14].copy_from_slice(&6_u32.to_le_bytes());
    uasset[export_offset + 0x1C..export_offset + 0x24]
        .copy_from_slice(&serial_size.to_le_bytes());
    uasset[export_offset + 0x24..export_offset + 0x2C]
        .copy_from_slice(&(header_size as u64).to_le_bytes());
    uasset
}

fn uasset_with_serial_size(base: &str, uexp_size: usize) -> Vec<u8> {
    uasset_with_metadata(base, uexp_size, 0x11, None, 0)
}

fn audited_en_us_gametextskill_uasset(
    uexp_size: usize,
    package_guid_byte: u8,
    bulk_data_start_offset: u64,
) -> Vec<u8> {
    uasset_with_metadata(
        "Local/DataBase/GameText/Localize/EN-US/SystemText/GameTextSkill",
        uexp_size,
        package_guid_byte,
        Some(bulk_data_start_offset),
        0,
    )
}

fn parallel_condition_row(id: u8, conditions: &[u8], params: &[u8]) -> Vec<u8> {
    assert!(conditions.len() <= 15);
    assert!(params.len() <= 15);
    let mut row = vec![0x83];
    row.extend(fixstr("m_id"));
    row.push(id);
    row.extend(fixstr("m_Conditions"));
    row.push(0x90 | conditions.len() as u8);
    row.extend_from_slice(conditions);
    row.extend(fixstr("m_Params"));
    row.push(0x90 | params.len() as u8);
    row.extend_from_slice(params);
    row
}

fn test_asset_with_shell_value(row: Vec<u8>, shell_value: u8) -> Vec<u8> {
    let mut payload = vec![0x82];
    payload.extend(fixstr("m_DataList"));
    payload.push(0x91);
    payload.extend(row);
    payload.extend(fixstr("m_ShellValue"));
    payload.push(shell_value);
    let mut prefix = [0x11; PREFIX_SIZE];
    prefix[6..10].copy_from_slice(&(payload.len() as u32).to_le_bytes());
    let mut output = prefix.to_vec();
    output.extend(payload);
    output.extend([0xFA, 0xFB, 0xFC, 0xFD]);
    output.extend([0xC1, 0x83, 0x2A, 0x9E]);
    output
}

/// A stored value of a database.
#[derive(Clone)]
struct Item {
    start: usize,
    end: usize,
    kind: ItemKind,
}

#[derive(Clone)]
enum ItemKind {
    Integer(i64),
    Float(f64),
    Text(String),
    Array(Vec<Item>),
    Table(Vec<(Item, Item)>),
}

fn big(bytes: &[u8]) -> u64 {
    bytes.iter().fold(0, |value, byte| (value << 8) | u64::from(*byte))
}

fn read_items(bytes: &[u8], at: usize, count: usize) -> Option<(Vec<Item>, usize)> {
    let mut items = Vec::new();
    let mut next = at;
    for _ in 0..count {
        let item = read_item(bytes, next)?;
        next = item.end;
        items.push(item);
    }
    Some((items, next))
}

fn read_item(bytes: &[u8], at: usize) -> Option<Item> {
    let marker = *bytes.get(at)?;
    let word = |width: usize| bytes.get(at + 1..at + 1 + width).map(big);
    let (kind, end) = match marker {
        0x00..=0x7F => (ItemKind::Integer(i64::from(marker)), at + 1),
        0xCC => (ItemKind::Integer(word(1)? as i64), at + 2),
        0xD0 => (ItemKind::Integer(i64::from(word(1)? as u8 as i8)), at + 2),
        0xCB => (ItemKind::Float(f64::from_bits(word(8)?)), at + 9),
        0xA0..=0xBF => {
            let end = at + 1 + usize::from(marker & 0x1F);
            let text = String::from_utf8(bytes.get(at + 1..end)?.to_vec()).ok()?;
            (ItemKind::Text(text), end)
        }
        0x80..=0x8F | 0xDE => {
            let (count, first) = if marker == 0xDE {
                (word(2)? as usize, at + 3)
            } else {
                (usize::from(marker & 0x0F), at + 1)
            };
            let (items, end) = read_items(bytes, first, 2 * count)?;
            let pairs = items
                .chunks(2)
                .map(|pair| (pair[0].clone(), pair[1].clone()))
                .collect();
            (ItemKind::Table(pairs), end)
        }
        0x90..=0x9F | 0xDC => {
            let (count, first) = if marker == 0xDC {
                (word(2)? as usize, at + 3)
            } else {
                (usize::from(marker & 0x0F), at + 1)
            };
            let (items, end) = read_items(bytes, first, count)?;
            (ItemKind::Array(items), end)
        }
        _ => return None,
    };
    Some(Item {
        start: at,
        end,
        kind,
    })
}

impl Item {
    fn raw<'b>(&self, bytes: &'b [u8]) -> &'b [u8] {
        &bytes[self.start..self.end]
    }

    fn text(&self) -> Option<&str> {
        match &self.kind {
            ItemKind::Text(text) => Some(text),
            _ => None,
        }
    }

    fn elements(&self) -> &[Item] {
        match &self.kind {
            ItemKind::Array(items) => items,
            _ => &[],
        }
    }

    fn entries(&self) -> &[(Item, Item)] {
        match &self.kind {
            ItemKind::Table(entries) => entries,
            _ => &[],
        }
    }

    fn field(&self, name: &str) -> Option<&Item> {
        self.entries()
            .iter()
            .find(|entry| entry.0.text() == Some(name))
            .map(|entry| &entry.1)
    }

    /// The value, whatever bytes store it.
    fn meaning(&self) -> String {
        match &self.kind {
            ItemKind::Integer(value) => format!("{value}"),
            ItemKind::Float(value) => format!("{value}"),
            ItemKind::Text(text) => format!("{text:?}"),
            ItemKind::Array(items) => {
                let parts: Vec<String> = items.iter().map(Item::meaning).collect();
                format!("[{}]", parts.join(","))
            }
            ItemKind::Table(entries) => {
                let parts: Vec<String> = entries
                    .iter()
                    .map(|(key, value)| format!("{}:{}", key.meaning(), value.meaning()))
                    .collect();
                format!("{{{}}}", parts.join(","))
            }
        }
    }

    fn node(&self, bytes: &[u8]) -> Node {
        let kind = match &self.kind {
            ItemKind::Integer(value) if *value >= 0 => NodeKind::Unsigned(*value as u64),
            ItemKind::Integer(value) => NodeKind::Signed(*value),
            ItemKind::Float(value) => NodeKind::Float(format!("{value}")),
            ItemKind::Text(text) => NodeKind::Text(text.clone()),
            ItemKind::Array(items) => {
                NodeKind::Array(items.iter().map(|item| item.node(bytes)).collect())
            }
            ItemKind::Table(entries) => {
                NodeKind::Table(entries.iter().map(|entry| entry.1.node(bytes)).collect())
            }
        };
        Node {
            marker: bytes[self.start],
            encoding: format!("marker-{:02x}", bytes[self.start]),
            kind,
        }
    }
}

fn sha256_hex(bytes: &[u8]) -> String {
    hex::encode(Sha256::digest(bytes))
}

/// Which fields of a row are chosen together.
fn groups_of(row: &Item) -> Vec<AtomicGroup> {
    let conditions = row.field("m_Conditions").map(|item| item.elements().len());
    let params = row.field("m_Params").map(|item| item.elements().len());
    let mut groups = Vec::new();
    if let (Some(len), true) = (conditions, conditions == params) {
        for index in 0..len {
            groups.push(AtomicGroup {
                id: format!("group:condition_parameters[{index}]"),
                fields: vec!["m_Conditions".to_owned(), "m_Params".to_owned()],
                compound: true,
                array_index: Some(index),
                expected_array_len: Some(len),
            });
        }
    }
    for (key, _) in row.entries() {
        let name = key.text().unwrap();
        if name == "m_id" || (!groups.is_empty() && groups[0].compound && name.starts_with("m_")) {
            continue;
        }
        groups.push(AtomicGroup {
            id: format!("field:{name}"),
            fields: vec![name.to_owned()],
            compound: false,
            array_index: None,
            expected_array_len: None,
        });
    }
    groups
}

fn unit_of(group: AtomicGroup, row: &Item, bytes: &[u8]) -> RowUnit {
    let mut raw = Vec::new();
    let mut meaning = String::new();
    let mut values = Vec::new();
    for name in &group.fields {
        let field = row.field(name).unwrap();
        let item = match group.array_index {
            Some(index) => &field.elements()[index],
            None => field,
        };
        raw.extend(name.as_bytes());
        raw.extend(item.raw(bytes));
        meaning.push_str(&format!("{name}={};", item.meaning()));
        values.push(Ok(FieldValue {
            node: item.node(bytes),
            raw: item.raw(bytes).to_vec(),
        }));
    }
    RowUnit {
        group,
        hashes: Ok(UnitHashes {
            raw_sha256: sha256_hex(&raw),
            semantic_sha256: sha256_hex(meaning.as_bytes()),
        }),
        values,
    }
}

fn units_of_row(row: &Item, bytes: &[u8]) -> Vec<RowUnit> {
    groups_of(row)
        .into_iter()
        .map(|group| unit_of(group, row, bytes))
        .collect()
}

fn row_id(row: &Item) -> Option<i64> {
    match row.field("m_id")?.kind {
        ItemKind::Integer(value) => Some(value),
        _ => None,
    }
}

fn read_row(row: &Item, bytes: &[u8]) -> Option<DatabaseRow> {
    let raw = row.raw(bytes).to_vec();
    Some(DatabaseRow {
        id: row_id(row)?,
        marker: bytes[row.start],
        raw_sha256: sha256_hex(&raw),
        semantic_sha256: sha256_hex(row.meaning().as_bytes()),
        raw,
        fields: row
            .entries()
            .iter()
            .map(|(key, value)| (key.text().unwrap().to_owned(), value.node(bytes)))
            .collect(),
        units: Ok(units_of_row(row, bytes)),
    })
}

fn read_rows(bytes: &[u8]) -> Option<DatabaseAsset> {
    let payload_len = u32::from_le_bytes(bytes.get(6..PREFIX_SIZE)?.try_into().ok()?) as usize;
    let payload_end = PREFIX_SIZE.checked_add(payload_len)?;
    if bytes.len() != payload_end.checked_add(8)? {
        return None;
    }
    let payload = &bytes[PREFIX_SIZE..payload_end];
    let root = read_item(payload, 0)?;
    let list = root.field("m_DataList")?;
    let mut rows = Vec::new();
    for row in list.elements() {
        rows.push(read_row(row, payload)?);
    }
    Some(DatabaseAsset {
        prefix: bytes[..PREFIX_SIZE].to_vec(),
        payload: payload.to_vec(),
        list_start: list.start,
        list_end: list.end,
        footer: bytes[payload_end..payload_end + 4].to_vec(),
        package_tag: bytes[payload_end + 4..].to_vec(),
        rows,
    })
}

fn read_database(bytes: &[u8]) -> Reading {
    match read_rows(bytes) {
        Some(asset) => Ok(asset),
        None => Err(ReadFailure::Failed("the file holds no row list".to_owned())),
    }
}

/// The header of a list of this many rows.
fn list_header(count: usize) -> Vec<u8> {
    if count <= 15 {
        vec![0x90 | count as u8]
    } else {
        let mut header = vec![0xDC];
        header.extend((count as u16).to_be_bytes());
        header
    }
}

/// A row with fields of other providers.
fn merge_row(base: &[u8], donors: &[&[u8]], selections: &[AtomicDonorSelection]) -> Vec<u8> {
    let row = read_item(base, 0).unwrap();
    let mut output = base[..row.entries()[0].0.start].to_vec();
    for (key, value) in row.entries() {
        let name = key.text().unwrap();
        output.extend(key.raw(base));
        let mut merged = value.raw(base).to_vec();
        for selection in selections {
            if !selection.fields.iter().any(|field| field == name) {
                continue;
            }
            let donor_bytes = donors[selection.donor_input];
            let donor = read_item(donor_bytes, 0).unwrap();
            let field = donor.field(name).unwrap();
            merged = match selection.array_index {
                None => field.raw(donor_bytes).to_vec(),
                Some(index) => {
                    let current = read_item(&merged, 0).unwrap();
                    let mut bytes = list_header(current.elements().len());
                    for (place, element) in current.elements().iter().enumerate() {
                        if place == index {
                            bytes.extend(field.elements()[index].raw(donor_bytes));
                        } else {
                            bytes.extend(element.raw(&merged));
                        }
                    }
                    bytes
                }
            };
        }
        output.extend(merged);
    }
    output
}

fn output_row(merged: Vec<u8>) -> OutputRow {
    let row = read_item(&merged, 0).unwrap();
    let read = ReadRow {
        id: Ok(row_id(&row).unwrap()),
        units: units_of_row(&row, &merged),
    };
    OutputRow {
        merged: Ok(merged),
        read: Ok(read),
    }
}

/// An archive on disk.
#[derive(Clone)]
struct Input {
    path: String,
    bytes: Vec<u8>,
    version: PakVersion,
    mount: String,
    files: Vec<String>,
    outputs: Vec<Vec<u8>>,
    outside: Rc<OnceCell<OutsideReading>>,
}

fn input_of(path: &str, version: PakVersion, mount: &str, files: &[Stored]) -> Input {
    let bytes = match version {
        PakVersion::V3 => v3_pak(mount, files),
        _ => v11_pak(mount, SEED, files, ""),
    };
    Input {
        path: path.to_owned(),
        bytes,
        version,
        mount: mount.to_owned(),
        files: files.iter().map(|file| file.path.clone()).collect(),
        outputs: Vec::new(),
        outside: Rc::new(OnceCell::new()),
    }
}

fn pak_at(path: &str, files: &[Stored]) -> Input {
    input_of(path, PakVersion::V11, MOUNT, files)
}

fn database_pak(path: &str, base: &str, uasset: Vec<u8>, uexp: Vec<u8>) -> Input {
    pak_at(
        path,
        &[
            plain(&format!("{base}.uasset"), &uasset),
            plain(&format!("{base}.uexp"), &uexp),
        ],
    )
}

fn table_pak(path: &str, base: &str, uexp: Vec<u8>) -> Input {
    let uasset = uasset_with_serial_size(base, uexp.len());
    database_pak(path, base, uasset, uexp)
}

impl Input {
    fn reading(&self) -> OutsideReading {
        let seed = match self.version {
            PakVersion::V3 => None,
            _ => Some(SEED),
        };
        OutsideReading {
            oodle_failure: None,
            reader: Ok(SecondReading {
                version: self.version,
                encrypted_index: false,
                mount_point: self.mount.clone(),
                path_hash_seed: seed,
                files: self.files.clone(),
            }),
            maximum_uexp_bytes: 1 << 30,
            uexp_tags: Vec::new(),
            outputs: self
                .outputs
                .iter()
                .map(|payload| DecoderOutput {
                    reader: Ok(vec![payload.clone()]),
                    oodle: Err(String::new()),
                })
                .collect(),
        }
    }

    fn open(&self) -> PakArchive<'_> {
        let outside = self.outside.get_or_init(|| self.reading());
        PakArchive::open(&self.path, &self.bytes, outside).unwrap()
    }

    fn stamp(&self) -> FileStamp {
        FileStamp {
            len: self.bytes.len() as u64,
            modified: Some(7),
        }
    }
}

fn name_of(path: &str) -> PathName {
    let file_name = path.rsplit('/').next().unwrap();
    PathName {
        file_name: Some(file_name.to_owned()),
        extension: file_name.rsplit_once('.').map(|parts| parts.1.to_owned()),
    }
}

fn request_of(inputs: &[Input]) -> AnalysisRequest {
    AnalysisRequest {
        pak_paths: inputs.iter().map(|input| input.path.clone()).collect(),
        carrier_path: inputs[0].path.clone(),
    }
}

fn names_of(inputs: &[Input]) -> Vec<PathName> {
    inputs.iter().map(|input| name_of(&input.path)).collect()
}

fn sizes_of(inputs: &[Input]) -> Vec<FileSize> {
    inputs
        .iter()
        .map(|input| Ok(input.bytes.len() as u64))
        .collect()
}

fn archives_of(inputs: &[Input]) -> Vec<InputArchive<'_>> {
    inputs
        .iter()
        .map(|input| InputArchive {
            archive: input.open(),
            source_modified: Some(7),
            stamp: Some(input.stamp()),
        })
        .collect()
}

/// What the profile registry and the database reader make of the inputs.
fn outside_of(inputs: &[Input]) -> (ProfileDetection, Vec<Vec<Reading>>) {
    let mut readings = Vec::new();
    let mut detection = ProfileDetection {
        status: ProfileDetectionStatus::GenericNoMatch,
        selected_profile_id: None,
    };
    let opened = match open_paks(&request_of(inputs), &names_of(inputs), archives_of(inputs)) {
        Ok(opened) => opened,
        Err(_) => return (detection, readings),
    };
    let marker = "Octopath_Traveler0/Content/Local/DataBase/Skill/SkillID";
    if profile_inventory(&opened)
        .iter()
        .any(|path| path.ends_with(marker))
    {
        detection = ProfileDetection {
            status: ProfileDetectionStatus::Selected,
            selected_profile_id: Some(OT0_PROFILE_ID.to_owned()),
        };
    }
    for unit in collect_units(&opened) {
        let mut list = Vec::new();
        if unit_requires_database_parse(&unit) {
            if let AnalysisUnit::Package(providers) = &unit {
                for provider in providers {
                    let path = provider.group.components.uexp.as_ref().unwrap();
                    let bytes = map_canonical_entry(&opened[provider.input_index], path).unwrap();
                    list.push(read_database(bytes.as_ref()));
                }
            }
        }
        readings.push(list);
    }
    (detection, readings)
}

fn plan_for(inputs: &[Input]) -> Result<MergePlan, MergeError> {
    let (detection, readings) = outside_of(inputs);
    analyze(
        request_of(inputs),
        &names_of(inputs),
        &sizes_of(inputs),
        archives_of(inputs),
        detection,
        readings,
        STEPS_PER_UNIT,
    )
}

fn session_for(inputs: &[Input]) -> MergeAnalysisSession<'_> {
    let (detection, readings) = outside_of(inputs);
    analyze_with_archives(
        request_of(inputs),
        &names_of(inputs),
        archives_of(inputs),
        detection,
        readings,
        STEPS_PER_UNIT,
    )
    .unwrap()
}

/// What the merger and the reader make of the rows of the merged databases.
fn supplies_for(
    session: &MergeAnalysisSession,
    resolutions: &ResolutionSet,
) -> Vec<DatabaseSupply> {
    let plan = session.plan();
    let carrier_index = session
        .opened
        .iter()
        .position(|opened| opened.descriptor.id == plan.carrier_input_id)
        .unwrap();
    let mut supplies = Vec::new();
    for asset in &plan.assets {
        if asset.action != AssetActionKind::MergeDatabase {
            continue;
        }
        let place = session
            .parsed_databases
            .find(&sort_key(&asset.virtual_path))
            .unwrap();
        let parsed = &session.parsed_databases.items[place].1.list;
        let carrier = carrier_position(parsed, carrier_index);
        let base_path = &parsed[carrier].group.base_path;
        let index = build_asset_conflict_index(plan, base_path);
        let context = RowContext {
            plan,
            index: &index,
            resolutions,
            opened: &session.opened,
            parsed,
        };
        let added = collect_appended_ids(parsed, carrier);
        let total = parsed[carrier].asset.rows.len() + added.len();
        let mut outputs = Vec::new();
        for row in &parsed[carrier].asset.rows {
            let Ok(row_plan) = plan_row(&context, row) else {
                return supplies;
            };
            let raw_of = |provider: usize| -> &[u8] {
                parsed[provider]
                    .asset
                    .rows
                    .iter()
                    .find(|candidate| candidate.id == row.id)
                    .map_or(&[], |candidate| candidate.raw.as_slice())
            };
            let donors: Vec<&[u8]> = (0..parsed.len()).map(raw_of).collect();
            let merged = match &row_plan.choice {
                RowChoice::Whole(donor) => donors[*donor].to_vec(),
                RowChoice::Atomic(selections) => merge_row(&row.raw, &donors, selections),
            };
            outputs.push(output_row(merged));
        }
        for id in added {
            let Ok(donor) = donor_of_added_row(&context, id) else {
                return supplies;
            };
            let row = parsed[donor]
                .asset
                .rows
                .iter()
                .find(|row| row.id == id)
                .unwrap();
            outputs.push(output_row(row.raw.clone()));
        }
        supplies.push(DatabaseSupply {
            header: Ok(list_header(total)),
            outputs,
        });
    }
    supplies
}

fn free_place(path: &str) -> OutputPlace {
    OutputPlace {
        path: path.to_owned(),
        name: name_of(path),
        target: OutputTarget::Absent,
    }
}

fn reopened(inputs: &[Input]) -> ReopenedInputs<'_> {
    let (detection, readings) = outside_of(inputs);
    ReopenedInputs {
        names: names_of(inputs),
        sizes: sizes_of(inputs),
        archives: archives_of(inputs),
        detection,
        readings,
        steps_per_unit: STEPS_PER_UNIT,
    }
}

fn reference_readings(archive: &PakArchive) -> Vec<Reading> {
    let tables = reference_tables(archive).unwrap();
    tables
        .items
        .iter()
        .map(|(_, place)| {
            let group = &archive.inventory().packages.packages[*place];
            let path = group.components.uexp.as_ref().unwrap();
            read_database(archive.peek_entry(path, u64::MAX).unwrap().as_ref())
        })
        .collect()
}

/// Writes a prepared merge and reports on it.
fn carried_out(
    merge: &PreparedMerge,
    opened: &Vec<pak_merger::merge::opened::OpenedPak>,
    path: &str,
) -> (Input, MergeReport) {
    let order = merge.order(opened, &None).unwrap();
    let files: Vec<Stored> = order
        .entries
        .iter()
        .map(|entry| plain(&entry.path, &entry.data))
        .collect();
    let output = input_of(path, PakVersion::V11, &order.mount_point, &files);
    let archive = output.open();
    let readings = reference_readings(&archive);
    let report = merge
        .finish(
            &archive,
            &order.source_sha256,
            readings,
            path,
            output.bytes.len() as u64,
            "1.2.3",
        )
        .unwrap();
    drop(archive);
    (output, report)
}

/// Analyzes again, decides the output and writes it.
fn written_at(
    inputs: &[Input],
    resolved: ResolvedPlan,
    place: &OutputPlace,
    options: WriteOptions,
) -> Result<(Input, MergeReport), MergeError> {
    let session = session_for(inputs);
    let supplies = supplies_for(&session, &resolved.resolutions);
    let started = write_with_options(resolved, place, options, reopened(inputs), &supplies)?;
    Ok(carried_out(&started.merge, &started.opened, &place.path))
}

fn written(inputs: &[Input], plan: &MergePlan, resolutions: ResolutionSet) -> (Input, MergeReport) {
    let resolved = resolve(plan.clone(), resolutions).unwrap();
    let session = session_for(inputs);
    let supplies = supplies_for(&session, &resolved.resolutions);
    let place = free_place("work/Merged_P.pak");
    let started =
        pak_merger::merge::write::write(resolved, &place, reopened(inputs), &supplies).unwrap();
    carried_out(&started.merge, &started.opened, &place.path)
}

fn verified(output: &Input, report: &MergeReport) -> VerificationResult {
    verify(&output.path, &output.bytes, &output.reading(), Some(report)).unwrap()
}

fn no_choices(plan: &MergePlan) -> ResolutionSet {
    ResolutionSet {
        plan_id: plan.plan_id.clone(),
        ..ResolutionSet::default()
    }
}

/// For each conflict that must be settled the variant of the input that `donor`
/// names for its unit.
fn choices_by(plan: &MergePlan, donor: impl Fn(&str) -> String) -> ResolutionSet {
    let mut resolutions = no_choices(plan);
    for conflict in plan.conflicts.iter().filter(|conflict| conflict.blocking) {
        let wanted = donor(conflict.group_id.as_deref().unwrap());
        let variant = conflict
            .variants
            .iter()
            .find(|variant| variant.input_id == wanted)
            .unwrap();
        resolutions
            .choices
            .insert(conflict.id.clone(), variant.id.clone());
    }
    resolutions
}

fn input_id(plan: &MergePlan, path: &str) -> String {
    plan.inputs
        .iter()
        .find(|input| input.path == path)
        .unwrap()
        .id
        .clone()
}

/// The rows of a database of an archive: their ids and their bytes.
fn rows_of(output: &Input, uexp: &str) -> Vec<(i64, Vec<u8>)> {
    let bytes = output.open().read_entry(uexp).unwrap();
    read_rows(&bytes)
        .unwrap()
        .rows
        .into_iter()
        .map(|row| (row.id, row.raw))
        .collect()
}

fn field_bytes(row: &[u8], field: &str) -> Vec<u8> {
    read_item(row, 0)
        .unwrap()
        .field(field)
        .unwrap()
        .raw(row)
        .to_vec()
}

#[test]
fn pak_only_analysis_never_requires_game_version_acknowledgement() {
    let inputs = [
        pak_at("mods/PlainA_P.pak", &[plain("Loose/A.bin", b"a")]),
        pak_at("mods/PlainB_P.pak", &[plain("Loose/B.bin", b"b")]),
    ];
    let plan = plan_for(&inputs).unwrap();
    let resolutions = no_choices(&plan);
    resolve(plan, resolutions).unwrap();
}

#[test]
fn complete_inventory_profile_is_pinned_serialized_and_deterministic() {
    let mount = "../../../Octopath_Traveler0/Content/";
    let inputs = [
        input_of(
            "mods/Ot0ProfileA_P.pak",
            PakVersion::V11,
            mount,
            &[plain("Local/DataBase/Skill/SkillID.uasset", b"header")],
        ),
        input_of(
            "mods/Ot0ProfileB_P.pak",
            PakVersion::V11,
            mount,
            &[plain("Loose/Second.bin", b"b")],
        ),
    ];
    let plan = plan_for(&inputs).unwrap();
    assert_eq!(plan.selected_profile_id.as_deref(), Some(OT0_PROFILE_ID));
    assert_eq!(
        plan.profile_detection_status,
        Some(ProfileDetectionStatus::Selected)
    );
    let repeated = plan_for(&inputs).unwrap();
    assert_eq!(repeated.plan_id, plan.plan_id);
    assert_eq!(repeated.selected_profile_id, plan.selected_profile_id);
    assert_eq!(repeated, plan);
}

#[test]
fn other_game_with_ot0_table_suffix_uses_generic_profile_and_skips_ot0_links() {
    let mount = "../../../OtherGame/Content/";
    let inputs = [
        input_of(
            "mods/OtherProfileA_P.pak",
            PakVersion::V11,
            mount,
            &[plain("Local/DataBase/Skill/SkillID.uasset", b"header")],
        ),
        input_of(
            "mods/OtherProfileB_P.pak",
            PakVersion::V11,
            mount,
            &[plain("Loose/Second.bin", b"b")],
        ),
    ];
    let plan = plan_for(&inputs).unwrap();
    assert_eq!(plan.selected_profile_id, None);
    assert_eq!(
        plan.profile_detection_status,
        Some(ProfileDetectionStatus::GenericNoMatch)
    );
    assert!(plan
        .warnings
        .iter()
        .any(|warning| warning.contains("using general field rules")));

    let archive = inputs[0].open();
    let reference_warnings =
        validate_references_for_pinned_profile(&plan, &archive, Vec::new()).unwrap();
    assert_eq!(reference_warnings.len(), 1);
    assert!(reference_warnings[0].contains("require the OCTOPATH TRAVELER 0 profile"));
}

#[test]
fn mixed_nested_mounts_rebase_paths_and_preserve_raw_source_mapping() {
    let root_mount = "../../../Example/Content/";
    let nested_mount = "../../../Example/Content/Local/DataBase/GameText/Localize/KO-KR/SystemText/";
    let nested_base = "Local/DataBase/GameText/Localize/KO-KR/SystemText/GameTextSkill";
    let inputs = [
        input_of(
            "mods/Root_P.pak",
            PakVersion::V11,
            root_mount,
            &[plain("Loose/Root.bin", b"root")],
        ),
        input_of(
            "mods/NestedV3_P.pak",
            PakVersion::V3,
            nested_mount,
            &[
                plain("GameTextSkill.uasset", b"nested-header"),
                plain("GameTextSkill.uexp", b"nested-payload"),
            ],
        ),
    ];
    let plan = plan_for(&inputs).unwrap();
    assert!(plan.conflicts.is_empty());
    assert!(plan.inputs.iter().any(|input| {
        input.path == inputs[1].path
            && input.pak_version == Some(3)
            && input.mount_point.as_deref() == Some(nested_mount)
    }));
    let nested_asset = plan
        .assets
        .iter()
        .find(|asset| asset.virtual_path == nested_base)
        .expect("rebased nested package");
    assert_eq!(nested_asset.action, AssetActionKind::Copy);

    let (output, report) = written(&inputs, &plan, no_choices(&plan));
    assert_eq!(report.output_pak_version, 11);
    assert_eq!(report.output_mount_point, root_mount);

    let mut archive = output.open();
    assert_eq!(archive.inventory().mount_point, root_mount);
    assert_eq!(archive.read_entry("Loose/Root.bin").unwrap(), b"root");
    assert_eq!(
        archive
            .read_entry(&format!("{nested_base}.uasset"))
            .unwrap(),
        b"nested-header"
    );
    assert_eq!(
        archive.read_entry(&format!("{nested_base}.uexp")).unwrap(),
        b"nested-payload"
    );
}

#[test]
fn unrelated_mounts_with_only_traversal_in_common_are_rejected() {
    let inputs = [
        input_of(
            "mods/First_P.pak",
            PakVersion::V11,
            "../../../FirstGame/Content/",
            &[plain("Loose/First.bin", b"first")],
        ),
        input_of(
            "mods/Second_P.pak",
            PakVersion::V3,
            "../../../SecondGame/Content/",
            &[plain("Loose/Second.bin", b"second")],
        ),
    ];
    let error = plan_for(&inputs).unwrap_err();
    assert!(
        error.message().contains("point to different game folders"),
        "unexpected error: {}",
        error.message()
    );
}

#[test]
fn mount_that_escapes_after_named_component_is_rejected() {
    let inputs = [
        input_of(
            "mods/First_P.pak",
            PakVersion::V11,
            "../../../Example/Content/",
            &[plain("Loose/First.bin", b"first")],
        ),
        input_of(
            "mods/Escaping_P.pak",
            PakVersion::V3,
            "../../../Example/Content/../Other/",
            &[plain("Loose/Second.bin", b"second")],
        ),
    ];
    let error = plan_for(&inputs).unwrap_err();
    assert!(
        error.message().contains("leaves its game folder"),
        "unexpected error: {}",
        error.message()
    );
}

#[test]
fn encoding_drift_rejects_explicit_choice_and_writes_fixed_carrier_raw() {
    let base = "Local/DataBase/Test/EncodingDrift";
    let uexp = format!("{base}.uexp");
    let inputs = [
        table_pak(
            "mods/DriftA_P.pak",
            base,
            test_asset(test_row_raw(1, &[0xcc, 1], &[2])),
        ),
        table_pak(
            "mods/DriftB_P.pak",
            base,
            test_asset(test_row_raw(1, &[0xd0, 1], &[2])),
        ),
    ];
    let plan = plan_for(&inputs).unwrap();
    let drift = plan
        .conflicts
        .iter()
        .find(|conflict| conflict.kind == ConflictKind::EncodingDrift)
        .unwrap();
    assert!(!drift.blocking);

    let mut explicit = no_choices(&plan);
    explicit
        .choices
        .insert(drift.id.clone(), drift.variants[0].id.clone());
    assert!(resolve(plan.clone(), explicit).is_err());

    let (output, report) = written(&inputs, &plan, no_choices(&plan));
    assert!(report.resolutions.choices.find(&drift.id).is_none());
    let record = report
        .resolved_conflicts
        .iter()
        .find(|record| record.conflict_id == drift.id)
        .unwrap();
    assert!(record.automatic);
    assert_eq!(
        record
            .selected_variant
            .as_ref()
            .map(|variant| &variant.input_id),
        Some(&plan.carrier_input_id)
    );

    let rows = rows_of(&output, &uexp);
    assert_eq!(rows[0].0, 1);
    assert_eq!(field_bytes(&rows[0].1, "x"), [0xcc, 1]);
}

#[test]
fn encoding_drift_is_counted_exactly_but_only_bounded_examples_are_kept() {
    let base = "Local/DataBase/Test/ManyEncodingDrifts";
    let inputs = [
        table_pak(
            "mods/ManyDriftA_P.pak",
            base,
            test_asset(many_encoding_drift_fields_row(70, false)),
        ),
        table_pak(
            "mods/ManyDriftB_P.pak",
            base,
            test_asset(many_encoding_drift_fields_row(70, true)),
        ),
    ];
    let plan = plan_for(&inputs).unwrap();
    assert_eq!(plan.encoding_drift_count, 70);
    assert_eq!(
        plan.conflicts
            .iter()
            .filter(|conflict| conflict.kind == ConflictKind::EncodingDrift)
            .count(),
        MAX_ENCODING_DRIFT_SAMPLES_PER_ASSET
    );
    assert!(!plan.conflicts.iter().any(|conflict| conflict.blocking));
    assert!(plan.warnings.iter().any(|warning| {
        warning.contains("Encoding drift retained for 70 item(s)")
            && warning.contains("64 example(s)")
    }));
}

#[test]
fn byte_identical_paks_at_different_paths_are_rejected() {
    let first = pak_at("mods/SameA_P.pak", &[plain("Loose/Test.bin", b"same")]);
    let mut second = first.clone();
    second.path = "mods/SameB_P.pak".to_owned();
    let error = plan_for(&[first, second]).unwrap_err();
    assert!(error.message().contains("Pak files are identical"));
    assert!(error.message().contains("mods/SameB_P.pak"));
}

#[test]
fn matching_database_row_layout_batches_only_conflicting_variants() {
    let base = "Local/DataBase/Test/LazyRows";
    let inputs = [
        table_pak("mods/LazyRowsA_P.pak", base, test_asset(test_row(1, 10, 20))),
        table_pak("mods/LazyRowsB_P.pak", base, test_asset(test_row(1, 11, 21))),
    ];
    let session = session_for(&inputs);
    for field in ["field:x", "field:y"] {
        assert!(session.plan().conflicts.iter().any(|conflict| {
            conflict.kind == ConflictKind::FieldValue
                && conflict.group_id.as_deref() == Some(field)
        }));
    }
    // Only the choices for the changed fields are there, one for each Pak.
    let variants: usize = session
        .plan()
        .conflicts
        .iter()
        .map(|conflict| conflict.variants.len())
        .sum();
    assert_eq!(variants, 4);
}

#[test]
fn structural_mismatch_builds_whole_row_variants_lazily_in_legacy_order() {
    let base = "Local/DataBase/Test/LazyMismatch";
    let uexp = format!("{base}.uexp");
    let inputs = [
        table_pak(
            "mods/LazyMismatchA_P.pak",
            base,
            test_asset(test_row(1, 10, 20)),
        ),
        table_pak("mods/LazyMismatchB_P.pak", base, test_asset(id_only_row(1))),
        table_pak(
            "mods/LazyMismatchC_P.pak",
            base,
            test_asset(test_row(1, 11, 21)),
        ),
    ];
    let session = session_for(&inputs);
    let conflict = session
        .plan()
        .conflicts
        .iter()
        .find(|conflict| {
            conflict.kind == ConflictKind::StructureMismatch
                && conflict.group_id.as_deref() == Some("__whole_row__")
        })
        .unwrap();
    let actual_ids = conflict
        .variants
        .iter()
        .map(|variant| variant.input_id.clone())
        .collect::<Vec<_>>();
    let mut expected_ids = session
        .plan()
        .inputs
        .iter()
        .map(|input| input.id.clone())
        .collect::<Vec<_>>();
    expected_ids.sort();
    assert_eq!(actual_ids, expected_ids);
    assert_eq!(conflict.variants.len(), 3);
    assert!(conflict.variants.iter().all(|variant| {
        variant.provenance.entry_path.as_deref() == Some(uexp.as_str())
            && variant.preview.starts_with("row 1, ")
            && variant.marker.starts_with("row-map:0x")
    }));
}

#[test]
fn database_shell_mismatch_requires_whole_package_selection() {
    let base = "Local/DataBase/Test/Shell";
    let inputs = [
        table_pak(
            "mods/ShellA_P.pak",
            base,
            test_asset_with_shell_value(test_row(1, 10, 20), 1),
        ),
        table_pak(
            "mods/ShellB_P.pak",
            base,
            test_asset_with_shell_value(test_row(1, 10, 20), 2),
        ),
    ];
    let plan = plan_for(&inputs).unwrap();
    let conflict = plan
        .conflicts
        .iter()
        .find(|conflict| conflict.asset_path == base)
        .unwrap();
    assert_eq!(conflict.kind, ConflictKind::StructureMismatch);
    assert!(conflict.blocking);
    assert_eq!(conflict.row_id, None);
    assert_eq!(
        plan.assets
            .iter()
            .find(|asset| asset.virtual_path == base)
            .unwrap()
            .action,
        AssetActionKind::SelectOpaque
    );
}

#[test]
fn valid_binary_asset_outside_local_database_uses_field_merge() {
    let base = "Custom/GameData/BalanceTable";
    let inputs = [
        table_pak(
            "mods/GenericPathA_P.pak",
            base,
            test_asset(test_row(1, 10, 20)),
        ),
        table_pak(
            "mods/GenericPathB_P.pak",
            base,
            test_asset(test_row(1, 11, 20)),
        ),
    ];
    let plan = plan_for(&inputs).unwrap();
    let asset = plan
        .assets
        .iter()
        .find(|asset| asset.virtual_path == base)
        .unwrap();
    assert_eq!(asset.action, AssetActionKind::MergeDatabase);
    assert!(plan.conflicts.iter().any(|conflict| {
        conflict.asset_path == base
            && conflict.kind == ConflictKind::FieldValue
            && conflict.group_id.as_deref() == Some("field:x")
    }));
}

#[test]
fn non_binary_package_outside_database_falls_back_to_whole_package_choice() {
    let base = "Blueprints/BP_TestActor";
    let input = |path: &str, suffix: u8| {
        database_pak(
            path,
            base,
            vec![0xC1, 0x83, 0x2A, 0x9E, suffix],
            vec![0x42, 0x50, suffix],
        )
    };
    let inputs = [
        input("mods/BlueprintA_P.pak", 1),
        input("mods/BlueprintB_P.pak", 2),
    ];
    let plan = plan_for(&inputs).unwrap();
    let asset = plan
        .assets
        .iter()
        .find(|asset| asset.virtual_path == base)
        .unwrap();
    assert_eq!(asset.action, AssetActionKind::SelectOpaque);
    assert_eq!(asset.conflict_ids.len(), 1);
    assert!(plan.conflicts.iter().any(|conflict| {
        conflict.asset_path == base && conflict.blocking && conflict.row_id.is_none()
    }));
}

#[test]
fn a_whole_package_choice_copies_the_files_of_the_chosen_pak() {
    let base = "Blueprints/BP_TestActor";
    let input = |path: &str, suffix: u8| {
        database_pak(
            path,
            base,
            vec![0xC1, 0x83, 0x2A, 0x9E, suffix],
            vec![0x42, 0x50, suffix],
        )
    };
    let inputs = [input("mods/A_P.pak", 1), input("mods/B_P.pak", 2)];
    let plan = plan_for(&inputs).unwrap();
    let conflict = &plan.conflicts[0];
    let wanted = input_id(&plan, "mods/B_P.pak");
    let variant = conflict
        .variants
        .iter()
        .find(|variant| variant.input_id == wanted)
        .unwrap();
    let mut resolutions = no_choices(&plan);
    assert!(resolve(plan.clone(), no_choices(&plan)).is_err());
    resolutions
        .choices
        .insert(conflict.id.clone(), variant.id.clone());
    let (output, report) = written(&inputs, &plan, resolutions);
    let mut archive = output.open();
    assert_eq!(
        archive.read_entry(&format!("{base}.uasset")).unwrap(),
        [0xC1, 0x83, 0x2A, 0x9E, 2]
    );
    assert_eq!(
        archive.read_entry(&format!("{base}.uexp")).unwrap(),
        [0x42, 0x50, 2]
    );
    assert!(report.raw_preservation_audits.is_empty());
    assert!(verified(&output, &report).valid);
}

#[test]
fn differing_donor_uasset_header_is_warned_and_carrier_header_is_retained() {
    let base = "Local/DataBase/GameText/Localize/EN-US/SystemText/GameTextSkill";
    let uasset_path = format!("{base}.uasset");
    let carrier_uexp = test_asset(test_row_raw(1, &[10], &[20]));
    let donor_uexp = test_asset(test_row_raw(1, &[0xCC, 11], &[20]));
    let carrier_uexp_size = carrier_uexp.len();
    let donor_uexp_size = donor_uexp.len();
    let carrier_header_size = uasset_with_serial_size(base, carrier_uexp_size).len();
    let donor_header_size = uasset_with_serial_size(base, donor_uexp_size).len();
    let carrier_uasset = audited_en_us_gametextskill_uasset(
        carrier_uexp_size,
        0x11,
        (carrier_header_size + carrier_uexp_size - PACKAGE_TAG_SIZE) as u64,
    );
    let donor_uasset = audited_en_us_gametextskill_uasset(
        donor_uexp_size,
        0xA5,
        (donor_header_size + donor_uexp_size - PACKAGE_TAG_SIZE) as u64,
    );
    let inputs = [
        database_pak(
            "mods/HeaderA_P.pak",
            base,
            carrier_uasset.clone(),
            carrier_uexp,
        ),
        database_pak("mods/HeaderB_P.pak", base, donor_uasset, donor_uexp),
    ];
    let plan = plan_for(&inputs).unwrap();
    let asset = plan
        .assets
        .iter()
        .find(|asset| asset.virtual_path == base)
        .unwrap();
    assert_eq!(asset.action, AssetActionKind::MergeDatabase);
    assert!(asset.warnings.iter().any(|warning| {
        warning.contains("related .uasset file differs between Paks")
            && warning.contains("structurally verified data-size field")
    }));
    assert!(plan
        .warnings
        .iter()
        .any(|warning| warning.contains("related .uasset file differs between Paks")));

    let conflict = plan
        .conflicts
        .iter()
        .find(|conflict| conflict.blocking)
        .unwrap();
    assert_eq!(conflict.group_id.as_deref(), Some("field:x"));
    let donor_input = input_id(&plan, "mods/HeaderB_P.pak");
    let donor_variant = conflict
        .variants
        .iter()
        .find(|variant| variant.input_id == donor_input)
        .unwrap();
    let mut resolutions = no_choices(&plan);
    resolutions
        .choices
        .insert(conflict.id.clone(), donor_variant.id.clone());
    let (output, report) = written(&inputs, &plan, resolutions);
    assert!(report.verification_passed);
    let expected_uasset =
        patch_serial_size(&carrier_uasset, carrier_uexp_size, donor_uexp_size).unwrap();
    assert_eq!(
        output.open().read_entry(&uasset_path).unwrap(),
        expected_uasset
    );
}

#[test]
fn database_bulk_boundary_difference_allows_field_level_merge() {
    let base = "Local/DataBase/Enemy/EnemyGroups";
    let uexp_a = test_asset(test_row_raw(1, &[10], &[20]));
    let uexp_b = test_asset(test_row_raw(1, &[0xCC, 11], &[20]));
    let header_size = uasset_with_serial_size(base, uexp_a.len()).len() as u64;
    let uasset_a = uasset_with_metadata(
        base,
        uexp_a.len(),
        0x11,
        Some(header_size + (uexp_a.len() - PACKAGE_TAG_SIZE) as u64),
        0,
    );
    let uasset_b = uasset_with_metadata(
        base,
        uexp_b.len(),
        0xA5,
        Some(header_size + (uexp_b.len() - PACKAGE_TAG_SIZE) as u64),
        0,
    );
    let inputs = [
        database_pak("mods/BulkA_P.pak", base, uasset_a, uexp_a),
        database_pak("mods/BulkB_P.pak", base, uasset_b, uexp_b),
    ];
    let plan = plan_for(&inputs).unwrap();
    let asset = plan
        .assets
        .iter()
        .find(|asset| asset.virtual_path == base)
        .unwrap();
    assert_eq!(asset.action, AssetActionKind::MergeDatabase);
    assert!(asset
        .warnings
        .iter()
        .any(|warning| warning.contains(".uasset")));
    assert!(plan.conflicts.iter().any(|conflict| {
        conflict.asset_path == base && conflict.kind == ConflictKind::FieldValue
    }));
}

fn analyze_en_us_gametextskill_header_mutation(
    stem: &str,
    mutate_donor: impl FnOnce(&mut [u8]),
) -> MergePlan {
    let base = "Local/DataBase/GameText/Localize/EN-US/SystemText/GameTextSkill";
    let carrier_uexp = test_asset(test_row(1, 10, 20));
    let donor_uexp = test_asset(test_row(1, 11, 20));
    let header_size = uasset_with_serial_size(base, carrier_uexp.len()).len();
    let carrier_uasset = audited_en_us_gametextskill_uasset(
        carrier_uexp.len(),
        0x11,
        (header_size + carrier_uexp.len() - PACKAGE_TAG_SIZE) as u64,
    );
    let mut donor_uasset = carrier_uasset.clone();
    mutate_donor(&mut donor_uasset);
    plan_for(&[
        database_pak(
            &format!("mods/{stem}A_P.pak"),
            base,
            carrier_uasset,
            carrier_uexp,
        ),
        database_pak(
            &format!("mods/{stem}B_P.pak"),
            base,
            donor_uasset,
            donor_uexp,
        ),
    ])
    .unwrap()
}

#[test]
fn malformed_uasset_structure_remains_a_structure_mismatch() {
    let base = "Local/DataBase/GameText/Localize/EN-US/SystemText/GameTextSkill";
    for plan in [
        analyze_en_us_gametextskill_header_mutation("Magic", |header| {
            header[0] ^= 0x7f;
        }),
        analyze_en_us_gametextskill_header_mutation("Flags", |header| {
            let folder_len = u32::from_le_bytes(header[0x20..0x24].try_into().unwrap()) as usize;
            header[0x24 + folder_len] ^= 0x01;
        }),
    ] {
        let asset = plan
            .assets
            .iter()
            .find(|asset| asset.virtual_path == base)
            .unwrap();
        assert_eq!(asset.action, AssetActionKind::SelectOpaque);
        assert!(plan.conflicts.iter().any(|conflict| {
            conflict.asset_path == base
                && conflict.kind == ConflictKind::StructureMismatch
                && conflict.blocking
        }));
    }
}

#[test]
fn known_reference_validation_blocks_only_when_both_tables_are_embedded() {
    let group_base = "Octopath_Traveler0/Content/Local/DataBase/Enemy/EnemyGroups";
    let enemy_base = "Octopath_Traveler0/Content/Local/DataBase/Enemy/EnemyID";
    let make_pak = |path: &str, enemy_reference| {
        let group_uexp = test_asset(enemy_group_row(1, enemy_reference));
        let enemy_uexp = test_asset(id_only_row(7));
        let group_uasset = uasset_with_serial_size(group_base, group_uexp.len());
        let enemy_uasset = uasset_with_serial_size(enemy_base, enemy_uexp.len());
        pak_at(
            path,
            &[
                plain(&format!("{group_base}.uasset"), &group_uasset),
                plain(&format!("{group_base}.uexp"), &group_uexp),
                plain(&format!("{enemy_base}.uasset"), &enemy_uasset),
                plain(&format!("{enemy_base}.uexp"), &enemy_uexp),
            ],
        )
    };
    let valid = make_pak("mods/Valid_P.pak", 7);
    let broken = make_pak("mods/Broken_P.pak", 8);

    let archive = valid.open();
    let warnings =
        validate_known_references_in_archive(&archive, reference_readings(&archive)).unwrap();
    assert!(warnings
        .iter()
        .any(|warning| warning.contains("Reference checks: 1 rule(s)")));
    let archive = broken.open();
    let error =
        validate_known_references_in_archive(&archive, reference_readings(&archive)).unwrap_err();
    assert!(error.message().contains("reference(s) point to rows"));
    assert!(error.message().contains("EnemyID id 8"));
}

#[test]
fn unread_tables_warn_and_unread_rows_fail() {
    let base = "Octopath_Traveler0/Content/Local/DataBase/Enemy/EnemyID";
    let uexp = test_asset(id_only_row(7));
    let input = pak_at(
        "mods/Table_P.pak",
        &[
            plain(
                &format!("{base}.uasset"),
                &uasset_with_serial_size(base, uexp.len()),
            ),
            plain(&format!("{base}.uexp"), &uexp),
        ],
    );
    let archive = input.open();
    let unread = vec![Err(ReadFailure::Failed("no database".to_owned()))];
    let warnings = validate_known_references_in_archive(&archive, unread).unwrap();
    assert!(warnings
        .iter()
        .any(|warning| warning.contains("could not be read") && warning.contains("no database")));
    let broken = vec![Err(ReadFailure::Row("row 3 is broken".to_owned()))];
    let error = validate_known_references_in_archive(&archive, broken).unwrap_err();
    assert!(matches!(error, MergeError::BinaryAsset(text) if text == "row 3 is broken"));
    assert!(matches!(
        validate_known_references_in_archive(&archive, Vec::new()),
        Err(MergeError::Cancelled)
    ));
}

fn npc_pak(path: &str, rows: Vec<Vec<u8>>) -> Input {
    table_pak(
        path,
        "Local/DataBase/Npc/NpcSetList_Test_A1",
        test_asset_rows(rows),
    )
}

fn npc_plan(stem: &str, rows_a: Vec<Vec<u8>>, rows_b: Vec<Vec<u8>>) -> ([Input; 2], MergePlan) {
    let inputs = [
        npc_pak(&format!("mods/{stem}A_P.pak"), rows_a),
        npc_pak(&format!("mods/{stem}B_P.pak"), rows_b),
    ];
    let plan = plan_for(&inputs).unwrap();
    (inputs, plan)
}

#[test]
fn npc_logical_placement_collision_is_informational_deterministic_and_keeps_union() {
    let row_a = npc_placement_row(10, 7, "SLOT_A", "SharedNpc", 30, 40);
    let row_b = npc_placement_row(20, 7, "slot_a", "SharedNpc", 31, 41);
    let (inputs, plan) = npc_plan("Collision", vec![row_a.clone()], vec![row_b.clone()]);

    let collision = plan
        .conflicts
        .iter()
        .find(|conflict| conflict.kind == ConflictKind::PotentialPlacementCollision)
        .expect("logical placement warning");
    assert!(!collision.blocking);
    assert_eq!(collision.row_id, None);
    assert_eq!(
        collision.group_id.as_deref(),
        Some("npc_placement:map=7;appear=slot_a")
    );
    assert_eq!(collision.variants.len(), 2);
    assert!(collision.message.contains("rows will still be combined"));
    assert!(collision.message.contains("only one may appear in game"));
    assert!(collision.variants.iter().any(|variant| {
        variant.provenance.input_path == inputs[0].path
            && variant
                .provenance
                .entry_path
                .as_deref()
                .is_some_and(|path| path.ends_with("NpcSetList_Test_A1.uexp"))
            && variant.preview.contains("m_OwnerNPC=30")
            && variant.preview.contains("m_TalkID=40")
    }));
    assert!(collision.variants.iter().any(|variant| {
        variant.provenance.input_path == inputs[1].path
            && variant.preview.contains("m_OwnerNPC=31")
            && variant.preview.contains("m_TalkID=41")
    }));
    assert!(plan.warnings.iter().any(|warning| {
        warning.contains("NpcSet location") && warning.contains("only one may appear in game")
    }));
    let asset = plan
        .assets
        .iter()
        .find(|asset| asset.virtual_path.ends_with("NpcSetList_Test_A1"))
        .unwrap();
    assert_eq!(asset.action, AssetActionKind::MergeDatabase);
    assert!(asset.conflict_ids.is_empty());
    assert!(asset
        .warnings
        .iter()
        .any(|warning| warning.contains("NpcSet location")
            && warning.contains("only one may appear in game")));
    assert!(plan
        .unresolved_conflict_ids(&ResolutionSet::default())
        .is_empty());

    let repeated = plan_for(&inputs).unwrap();
    assert_eq!(repeated.plan_id, plan.plan_id);
    assert_eq!(repeated.conflicts, plan.conflicts);
    assert_eq!(repeated.warnings, plan.warnings);

    let mut invalid_choice = no_choices(&plan);
    invalid_choice
        .choices
        .insert(collision.id.clone(), collision.variants[0].id.clone());
    assert!(resolve(plan.clone(), invalid_choice).is_err());

    let (output, report) = written(&inputs, &plan, no_choices(&plan));
    assert!(report.verification_passed);
    assert!(report.conflicts.iter().any(|conflict| {
        conflict.kind == ConflictKind::PotentialPlacementCollision && !conflict.blocking
    }));
    assert!(report
        .warnings
        .iter()
        .any(|warning| warning.contains("NpcSet location")
            && warning.contains("only one may appear in game")));
    let record = report
        .resolved_conflicts
        .iter()
        .find(|record| record.conflict_id == collision.id)
        .unwrap();
    assert!(!record.automatic);
    assert!(record.selected_variant.is_none());

    assert_eq!(
        rows_of(&output, "Local/DataBase/Npc/NpcSetList_Test_A1.uexp"),
        [(10, row_a), (20, row_b)]
    );
}

#[test]
fn npc_placement_warning_suppresses_equivalent_bindings_and_uses_primary_key() {
    let (_, same_binding) = npc_plan(
        "SameBinding",
        vec![npc_placement_row(10, 7, "SLOT_A", "Shared", 30, 40)],
        vec![npc_placement_row(20, 7, "SLOT_A", "Shared", 30, 40)],
    );
    assert!(same_binding
        .conflicts
        .iter()
        .all(|conflict| conflict.kind != ConflictKind::PotentialPlacementCollision));

    let (_, distinct_primary_keys) = npc_plan(
        "PrimaryWins",
        vec![npc_placement_row(10, 7, "SLOT_A", "Shared", 30, 40)],
        vec![npc_placement_row(20, 7, "SLOT_B", "Shared", 31, 41)],
    );
    assert!(distinct_primary_keys
        .conflicts
        .iter()
        .all(|conflict| conflict.kind != ConflictKind::PotentialPlacementCollision));

    let shared_a = vec![
        npc_placement_row(10, 7, "SLOT_A", "Shared", 30, 40),
        npc_placement_row(20, 7, "SLOT_A", "Shared", 31, 41),
        npc_placement_row(1, 8, "SLOT_Z", "Other", 50, 60),
    ];
    let shared_b = vec![
        npc_placement_row(10, 7, "SLOT_A", "Shared", 30, 40),
        npc_placement_row(20, 7, "SLOT_A", "Shared", 31, 41),
        npc_placement_row(1, 8, "SLOT_Z", "Other", 50, 61),
    ];
    let (_, same_provider_pattern) = npc_plan("SamePattern", shared_a, shared_b);
    assert!(same_provider_pattern
        .conflicts
        .iter()
        .all(|conflict| conflict.kind != ConflictKind::PotentialPlacementCollision));
}

#[test]
fn npc_placement_warning_falls_back_to_normalized_label() {
    let (_, plan) = npc_plan(
        "Fallback",
        vec![npc_placement_row(10, 0, "", "Shared_Label", 30, 40)],
        vec![npc_placement_row(20, 0, "", " shared_label ", 31, 41)],
    );
    let collision = plan
        .conflicts
        .iter()
        .find(|conflict| conflict.kind == ConflictKind::PotentialPlacementCollision)
        .unwrap();
    assert_eq!(
        collision.group_id.as_deref(),
        Some("npc_placement:label=shared_label")
    );
    assert!(collision.message.contains("fallback m_label=shared_label"));
}

#[test]
fn compressed_input_is_decoded_before_writing_uncompressed_merged_output() {
    let compressed_data = vec![0x5a; 400_000];
    let file = Stored {
        path: "Loose/Compressed.bin".to_owned(),
        bytes: vec![0x33; 40],
        size: compressed_data.len() as u64,
        blocks: Some((vec![40], compressed_data.len() as u32)),
    };
    let compressed = Input {
        path: "mods/Compressed_P.pak".to_owned(),
        bytes: v11_pak(MOUNT, SEED, &[file], "Zstd"),
        version: PakVersion::V11,
        mount: MOUNT.to_owned(),
        files: vec!["Loose/Compressed.bin".to_owned()],
        outputs: vec![compressed_data.clone()],
        outside: Rc::new(OnceCell::new()),
    };
    let inputs = [
        compressed,
        pak_at("mods/Plain_P.pak", &[plain("Loose/Plain.bin", b"plain")]),
    ];
    let plan = plan_for(&inputs).unwrap();
    assert!(plan.conflicts.iter().all(|conflict| !conflict.blocking));
    let (output, report) = written(&inputs, &plan, no_choices(&plan));
    assert_eq!(report.output_compression, "None");
    let mut merged = output.open();
    assert_eq!(
        merged.read_entry("Loose/Compressed.bin").unwrap(),
        compressed_data
    );
    assert_eq!(merged.read_entry("Loose/Plain.bin").unwrap(), b"plain");
}

#[test]
fn live_analysis_session_reuses_compact_indexes_for_cancel_and_completed_retries() {
    let base = "Local/DataBase/Test/SessionIndexReuse";
    let inputs = [
        table_pak("mods/SessionA_P.pak", base, test_asset(test_row(1, 10, 20))),
        table_pak("mods/SessionB_P.pak", base, test_asset(test_row(1, 11, 20))),
    ];
    let stamps: Vec<Option<FileStamp>> = inputs.iter().map(|input| Some(input.stamp())).collect();
    let session = session_for(&inputs);
    assert!(session.cached_database_bytes() > 0);
    assert_eq!(session.parsed_databases.items.len(), 1);
    let place = session.parsed_databases.find(&sort_key(base)).unwrap();
    assert_eq!(session.parsed_databases.items[place].1.list.len(), 2);

    let mut resolutions = no_choices(session.plan());
    for conflict in session.plan().conflicts.iter().filter(|item| item.blocking) {
        resolutions
            .choices
            .insert(conflict.id.clone(), conflict.variants[0].id.clone());
    }
    let first_blocking = session
        .plan()
        .conflicts
        .iter()
        .find(|conflict| conflict.blocking)
        .unwrap();
    let mut invalid_resolutions = resolutions.clone();
    invalid_resolutions
        .choices
        .insert(first_blocking.id.clone(), "missing-test-variant".to_owned());
    let error = write_session_with_options_and_progress(
        &session,
        invalid_resolutions,
        &free_place("work/SessionFailed_P.pak"),
        WriteOptions::default(),
        &stamps,
        &Vec::new(),
    )
    .unwrap_err();
    assert!(matches!(error, MergeError::InvalidResolution(_)));

    // The job is cancelled before the first row is merged.
    let cancelled_supplies = vec![DatabaseSupply {
        header: Ok(list_header(1)),
        outputs: Vec::new(),
    }];
    let error = write_session_with_options_progress_and_cancel(
        &session,
        resolutions.clone(),
        &free_place("work/SessionCancelled_P.pak"),
        WriteOptions::default(),
        &stamps,
        &cancelled_supplies,
        false,
    )
    .unwrap_err();
    assert!(matches!(error, MergeError::Cancelled));
    let supplies = supplies_for(&session, &resolutions);
    let error = write_session_with_options_progress_and_cancel(
        &session,
        resolutions.clone(),
        &free_place("work/SessionCancelled_P.pak"),
        WriteOptions::default(),
        &stamps,
        &supplies,
        true,
    )
    .unwrap_err();
    assert!(matches!(error, MergeError::Cancelled));

    let merge = write_session_with_options_and_progress(
        &session,
        resolutions,
        &free_place("work/SessionMerged_P.pak"),
        WriteOptions::default(),
        &stamps,
        &supplies,
    )
    .unwrap();
    let (_, report) = carried_out(&merge, &session.opened, "work/SessionMerged_P.pak");
    assert!(report.verification_passed);
    let events = &merge.prepared.told;
    assert!(!events.is_empty());
    assert!(events
        .iter()
        .all(|event| event.stage != MergeProgressStage::IndexingDatabase));
    assert!(events.windows(2).all(|pair| {
        pair[0].total == pair[1].total
            && pair[0].completed <= pair[1].completed
            && pair[1].completed <= pair[1].total
    }));

    let retry = write_session_with_options_and_progress(
        &session,
        report.resolutions,
        &free_place("work/SessionRetry_P.pak"),
        WriteOptions::default(),
        &stamps,
        &supplies,
    )
    .unwrap();
    let (_, retry_report) = carried_out(&retry, &session.opened, "work/SessionRetry_P.pak");
    assert!(retry_report.verification_passed);
}

#[test]
fn a_cancelled_analysis_says_so() {
    let inputs = [
        pak_at("mods/A_P.pak", &[plain("Loose/A.bin", b"a")]),
        pak_at("mods/B_P.pak", &[plain("Loose/B.bin", b"b")]),
    ];
    let (detection, readings) = outside_of(&inputs);
    let error = analyze_with_archives_and_cancel(
        request_of(&inputs),
        &names_of(&inputs),
        archives_of(&inputs),
        detection,
        readings,
        STEPS_PER_UNIT,
        true,
    )
    .unwrap_err();
    assert!(matches!(error, MergeError::Cancelled));
}

#[test]
fn changed_inputs_stop_a_session() {
    let inputs = [
        pak_at("mods/A_P.pak", &[plain("Loose/A.bin", b"a")]),
        pak_at("mods/B_P.pak", &[plain("Loose/B.bin", b"b")]),
    ];
    let session = session_for(&inputs);
    let mut stamps: Vec<Option<FileStamp>> =
        inputs.iter().map(|input| Some(input.stamp())).collect();
    stamps[1] = Some(FileStamp {
        len: inputs[1].bytes.len() as u64,
        modified: Some(8),
    });
    let error = write_session_with_options_and_progress(
        &session,
        no_choices(session.plan()),
        &free_place("work/Merged_P.pak"),
        WriteOptions::default(),
        &stamps,
        &Vec::new(),
    )
    .unwrap_err();
    assert!(matches!(error, MergeError::InputChanged(path) if path == "mods/B_P.pak"));
    let error = settle_session(
        &session,
        no_choices(session.plan()),
        &free_place("work/Merged_P.pak"),
        WriteOptions::default(),
        &stamps,
    )
    .unwrap_err();
    assert!(matches!(error, MergeError::InputChanged(path) if path == "mods/B_P.pak"));
    stamps[1] = Some(inputs[1].stamp());
    let (settled, existing) = settle_session(
        &session,
        no_choices(session.plan()),
        &free_place("work/Merged_P.pak"),
        WriteOptions::default(),
        &stamps,
    )
    .unwrap();
    assert_eq!(settled.plan_id, session.plan().plan_id);
    assert!(existing.is_none());
}

#[test]
fn compatibility_write_indexes_each_provider_once_per_required_analysis() {
    let base = "Local/DataBase/Test/CompatibilityIndexReuse";
    let inputs = [
        table_pak(
            "mods/CompatibilityA_P.pak",
            base,
            test_asset(test_row(1, 10, 20)),
        ),
        table_pak(
            "mods/CompatibilityB_P.pak",
            base,
            test_asset(test_row(1, 11, 20)),
        ),
    ];
    // One reading for each provider.
    let (_, readings) = outside_of(&inputs);
    assert_eq!(readings.iter().map(Vec::len).sum::<usize>(), 2);
    let plan = plan_for(&inputs).unwrap();
    let mut resolutions = no_choices(&plan);
    for conflict in plan.conflicts.iter().filter(|item| item.blocking) {
        resolutions
            .choices
            .insert(conflict.id.clone(), conflict.variants[0].id.clone());
    }
    let (_, report) = written_at(
        &inputs,
        resolve(plan, resolutions).unwrap(),
        &free_place("work/CompatibilityMerged_P.pak"),
        WriteOptions::default(),
    )
    .unwrap();
    assert!(report.verification_passed);
}

#[test]
fn database_build_progress_counts_base_and_added_rows_together() {
    let base = "Local/DataBase/Test/Progress";
    let inputs = [
        table_pak("mods/ProgressA_P.pak", base, test_asset(test_row(1, 10, 20))),
        table_pak(
            "mods/ProgressB_P.pak",
            base,
            test_asset_rows(vec![test_row(1, 10, 20), test_row(2, 30, 40)]),
        ),
    ];
    let session = session_for(&inputs);
    let resolutions = no_choices(session.plan());
    let plan = session.plan().clone();
    let resolved = resolve(plan.clone(), resolutions.clone()).unwrap();
    let supplies = supplies_for(&session, &resolved.resolutions);
    let started = write_with_options_and_progress(
        resolved,
        &free_place("work/ProgressMerged_P.pak"),
        WriteOptions::default(),
        reopened(&inputs),
        &supplies,
    )
    .unwrap();
    let database_progress = &started.merge.prepared.told;
    assert!(database_progress
        .iter()
        .all(|event| event.stage == MergeProgressStage::BuildingDatabase));
    assert_eq!(database_progress.len(), 2);
    assert_eq!(
        (database_progress[0].completed, database_progress[0].total),
        (0, 2)
    );
    assert_eq!(
        (database_progress[1].completed, database_progress[1].total),
        (2, 2)
    );
    assert!(database_progress[0]
        .current_item
        .as_deref()
        .is_some_and(|item| item.contains(base) && item.contains("m_id 1")));
    assert!(database_progress[1]
        .current_item
        .as_deref()
        .is_some_and(|item| item.contains(base) && item.contains("m_id 2")));
    let parsed = &session.parsed_databases.items[0].1.list;
    let listed = merged_database_reports(parsed, 0).unwrap();
    assert_eq!(listed.len(), 2);
    assert_eq!(listed[1].current_item, database_progress[1].current_item);
    let (output, _) = written(&inputs, &plan, resolutions);
    assert_eq!(
        rows_of(&output, &format!("{base}.uexp")),
        [(1, test_row(1, 10, 20)), (2, test_row(2, 30, 40))]
    );
}

#[test]
fn databases_are_told_of_at_every_interval() {
    let base_ids: Vec<i64> = (0..300).collect();
    let added_ids: Vec<i64> = (1000..1213).collect();
    let told: Vec<_> = database_build_reports("Data/Table", &base_ids, &added_ids)
        .unwrap()
        .into_iter()
        .map(|event| (event.completed, event.total, event.current_item.unwrap()))
        .collect();
    assert_eq!(
        told,
        [
            (0, 513, "Data/Table · m_id 0".to_owned()),
            (256, 513, "Data/Table · m_id 255".to_owned()),
            (512, 513, "Data/Table · m_id 1211".to_owned()),
            (513, 513, "Data/Table · m_id 1212".to_owned()),
        ]
    );
    let added = database_build_reports("Data/Table", &Vec::new(), &vec![7]).unwrap();
    assert_eq!(added.len(), 2);
    assert_eq!(added[0].current_item.as_deref(), Some("Data/Table · m_id 7"));
    let none = database_build_reports("Data/Table", &Vec::new(), &Vec::new()).unwrap();
    assert_eq!(none.len(), 1);
    assert_eq!(none[0].current_item.as_deref(), Some("Data/Table"));
}

#[test]
fn end_to_end_pak_only_field_choices_produce_one_verified_pak() {
    let base = "Local/DataBase/Test/Test";
    let uexp = format!("{base}.uexp");
    let inputs = [
        table_pak("mods/A_P.pak", base, test_asset(test_row(1, 10, 0))),
        table_pak("mods/B_P.pak", base, test_asset(test_row(1, 0, 20))),
    ];
    let plan = plan_for(&inputs).unwrap();
    let input_a = input_id(&plan, "mods/A_P.pak");
    let input_b = input_id(&plan, "mods/B_P.pak");
    let resolutions = choices_by(&plan, |group| match group {
        "field:x" => input_a.clone(),
        "field:y" => input_b.clone(),
        other => panic!("unexpected blocking conflict: {other:?}"),
    });
    let resolved = resolve(plan, resolutions).unwrap();

    let session = session_for(&inputs);
    let mut progress_events = Vec::new();
    for (at, input) in inputs.iter().enumerate() {
        progress_events.push(checking_inputs(at, inputs.len(), &input.path));
    }
    let supplies = supplies_for(&session, &resolved.resolutions);
    let place = free_place("work/Merged_P.pak");
    let started = write_with_options(
        resolved.clone(),
        &place,
        WriteOptions::default(),
        reopened(&inputs),
        &supplies,
    )
    .unwrap();
    progress_events.extend(started.merge.prepared.told.clone());
    let order = started.merge.order(&started.opened, &None).unwrap();
    for (at, entry) in order.entries.iter().enumerate() {
        progress_events.push(write_progress(
            &started.merge.prepared,
            &PakWriteProgress::Writing {
                completed: at,
                total: order.entries.len(),
                current_path: Some(entry.path.clone()),
            },
        ));
    }
    let (output, report) = carried_out(&started.merge, &started.opened, &place.path);
    progress_events.push(finalizing(true, output.bytes.len() as u64, true, &place.path));
    assert!(progress_events.iter().any(|event| {
        event.stage == MergeProgressStage::CheckingInputs && event.total == 2
    }));
    assert!(progress_events.iter().any(|event| {
        event.stage == MergeProgressStage::WritingPak && event.current_item.is_some()
    }));
    let database_progress = progress_events
        .iter()
        .filter(|event| event.stage == MergeProgressStage::BuildingDatabase)
        .collect::<Vec<_>>();
    assert_eq!(database_progress.len(), 2);
    assert_eq!(
        (database_progress[0].completed, database_progress[0].total),
        (0, 1)
    );
    assert_eq!(
        (database_progress[1].completed, database_progress[1].total),
        (1, 1)
    );
    assert!(database_progress.iter().all(|event| {
        event
            .current_item
            .as_deref()
            .is_some_and(|item| item.contains(base) && item.contains("m_id 1"))
    }));
    assert_eq!(
        progress_events.last(),
        Some(&MergeProgress {
            stage: MergeProgressStage::Finalizing,
            completed: 1,
            total: 1,
            current_item: None,
        })
    );
    assert!(report.verification_passed);
    assert_eq!(report.raw_preserved_nodes, 1);
    assert_eq!(report.raw_replaced_nodes, 2);
    assert_eq!(report.raw_preservation_audits.len(), 1);
    let audit = &report.raw_preservation_audits[0];
    assert!(audit.passed);
    assert_eq!(audit.verified_row_count, 1);
    assert_eq!(audit.verified_atomic_unit_count, 2);
    assert_eq!(audit.preserved_node_count, 1);
    assert_eq!(audit.replaced_node_count, 1);
    assert_eq!(audit.pak_entry_path, uexp);
    assert_eq!(
        report
            .final_inventory
            .iter()
            .find(|entry| entry.path == uexp)
            .unwrap()
            .sha256,
        audit.entry_sha256
    );
    assert!(verified(&output, &report).valid);
    let mut mismatched_audit_report = report.clone();
    mismatched_audit_report.raw_preservation_audits[0].entry_sha256 = "00".repeat(32);
    let verification = verified(&output, &mismatched_audit_report);
    assert!(!verification.valid);
    assert!(verification
        .errors
        .iter()
        .any(|error| error.contains("unchanged-data Pak file SHA-256 mismatch")));

    let (_, repeated_report) = written_at(
        &inputs,
        resolved.clone(),
        &free_place("work/MergedRepeat_P.pak"),
        WriteOptions::default(),
    )
    .unwrap();
    assert_eq!(report.output_sha256, repeated_report.output_sha256);
    assert_eq!(
        report.raw_preservation_audits,
        repeated_report.raw_preservation_audits
    );

    let stamp = OutputTargetStamp {
        len: 32,
        modified: Some(9),
        readonly: false,
    };
    let taken = OutputPlace {
        path: "work/Overwrite_P.pak".to_owned(),
        name: name_of("work/Overwrite_P.pak"),
        target: OutputTarget::File(stamp),
    };
    assert!(written_at(&inputs, resolved.clone(), &taken, WriteOptions::default()).is_err());
    let (overwrite_output, overwrite_report) = written_at(
        &inputs,
        resolved,
        &taken,
        WriteOptions {
            overwrite_existing: true,
            ..WriteOptions::default()
        },
    )
    .unwrap();
    assert!(verified(&overwrite_output, &overwrite_report).valid);

    let rows = rows_of(&output, &uexp);
    assert_eq!(rows.len(), 1);
    let merged = &rows[0].1;
    assert_eq!(
        field_bytes(merged, "x"),
        field_bytes(&test_row(1, 10, 0), "x")
    );
    assert_eq!(
        field_bytes(merged, "y"),
        field_bytes(&test_row(1, 0, 20), "y")
    );
    assert_eq!(
        (field_bytes(merged, "x"), field_bytes(merged, "y")),
        (vec![10], vec![20])
    );
}

#[test]
fn disk_streamed_database_union_expands_array_header_and_is_deterministic() {
    let base = "Local/DataBase/Test/Streamed";
    let uexp = format!("{base}.uexp");
    let rows_a = (1..=15).map(|id| test_row(id, 10, 0)).collect();
    let mut rows_b = vec![test_row(1, 0, 20)];
    rows_b.extend((16..=29).map(|id| test_row(id, 0, 20)));
    let inputs = [
        table_pak("mods/StreamA_P.pak", base, test_asset_rows(rows_a)),
        table_pak("mods/StreamB_P.pak", base, test_asset_rows(rows_b)),
    ];
    let plan = plan_for(&inputs).unwrap();
    let input_a = input_id(&plan, "mods/StreamA_P.pak");
    let input_b = input_id(&plan, "mods/StreamB_P.pak");
    let resolutions = choices_by(&plan, |group| match group {
        "field:x" => input_a.clone(),
        "field:y" => input_b.clone(),
        other => panic!("unexpected streamed database conflict: {other:?}"),
    });
    let (first_output, first_report) = written(&inputs, &plan, resolutions.clone());
    let (_, second_report) = written(&inputs, &plan, resolutions);
    assert_eq!(first_report.output_sha256, second_report.output_sha256);
    assert_eq!(
        first_report.raw_preservation_audits,
        second_report.raw_preservation_audits
    );

    let bytes = first_output.open().read_entry(&uexp).unwrap();
    let merged = read_rows(&bytes).unwrap();
    assert_eq!(merged.rows.len(), 29);
    assert_eq!(merged.payload[merged.list_start], 0xDC);
    assert_eq!(
        merged.rows.iter().map(|row| row.id).collect::<Vec<_>>(),
        (1_i64..=29).collect::<Vec<_>>()
    );
    assert_eq!(
        first_report.raw_preservation_audits[0].verified_row_count,
        29
    );
}

#[test]
fn end_to_end_parallel_array_indices_combine_changes_from_two_paks() {
    let base = "Octopath_Traveler0/Content/Local/DataBase/AIBattle/TacticalActionList";
    let uexp = format!("{base}.uexp");
    let row_a = parallel_condition_row(1, &[1, 0], &[10, 0]);
    let row_b = parallel_condition_row(1, &[0, 2], &[0, 20]);
    let inputs = [
        table_pak("mods/ArrayA_P.pak", base, test_asset(row_a.clone())),
        table_pak("mods/ArrayB_P.pak", base, test_asset(row_b.clone())),
    ];
    let plan = plan_for(&inputs).unwrap();
    let input_a = input_id(&plan, "mods/ArrayA_P.pak");
    let input_b = input_id(&plan, "mods/ArrayB_P.pak");
    let blocking: Vec<_> = plan
        .conflicts
        .iter()
        .filter(|conflict| conflict.blocking)
        .collect();
    assert_eq!(blocking.len(), 2);
    assert!(blocking
        .iter()
        .all(|conflict| conflict.kind == ConflictKind::AtomicGroup));
    assert_eq!(
        blocking
            .iter()
            .filter_map(|conflict| conflict.group_id.as_deref())
            .collect::<BTreeSet<_>>(),
        BTreeSet::from([
            "group:condition_parameters[0]",
            "group:condition_parameters[1]",
        ])
    );
    let resolutions = choices_by(&plan, |group| match group {
        "group:condition_parameters[0]" => input_a.clone(),
        "group:condition_parameters[1]" => input_b.clone(),
        other => panic!("unexpected indexed conflict: {other:?}"),
    });
    let (output, report) = written(&inputs, &plan, resolutions);
    assert!(report.verification_passed);
    assert_eq!(report.raw_replaced_nodes, 4);
    let audit = report.raw_preservation_audits.first().unwrap();
    assert_eq!(audit.verified_row_count, 1);
    assert_eq!(audit.verified_atomic_unit_count, 2);
    assert_eq!(audit.preserved_node_count, 1);
    assert_eq!(audit.replaced_node_count, 1);

    let merged = rows_of(&output, &uexp)[0].1.clone();
    let row = read_item(&merged, 0).unwrap();
    let source_a = read_item(&row_a, 0).unwrap();
    let source_b = read_item(&row_b, 0).unwrap();
    for field in ["m_Conditions", "m_Params"] {
        let actual = row.field(field).unwrap().elements();
        let from_a = source_a.field(field).unwrap().elements();
        let from_b = source_b.field(field).unwrap().elements();
        assert_eq!(actual[0].raw(&merged), from_a[0].raw(&row_a));
        assert_eq!(actual[1].raw(&merged), from_b[1].raw(&row_b));
    }
    assert_eq!(row.field("m_Conditions").unwrap().meaning(), "[1,2]");
    assert_eq!(row.field("m_Params").unwrap().meaning(), "[10,20]");
}

#[test]
fn parallel_array_length_change_fails_closed_as_whole_row_structure_conflict() {
    let base = "Octopath_Traveler0/Content/Local/DataBase/AIBattle/TacticalActionList";
    let inputs = [
        table_pak(
            "mods/ArrayShapeA_P.pak",
            base,
            test_asset(parallel_condition_row(1, &[1, 0], &[10, 0])),
        ),
        table_pak(
            "mods/ArrayShapeB_P.pak",
            base,
            test_asset(parallel_condition_row(1, &[1, 0, 0], &[10, 0, 0])),
        ),
    ];
    let plan = plan_for(&inputs).unwrap();
    let blocking: Vec<_> = plan
        .conflicts
        .iter()
        .filter(|conflict| conflict.blocking)
        .collect();
    assert_eq!(blocking.len(), 1);
    assert_eq!(blocking[0].kind, ConflictKind::StructureMismatch);
    assert_eq!(
        blocking[0].group_id.as_deref(),
        Some("__whole_row__"),
        "analysis warnings: {:?}",
        plan.warnings
    );
    assert_eq!(blocking[0].row_id.as_deref(), Some("1"));
}

#[test]
fn nothing_of_the_inputs_is_lost() {
    let inputs = [
        pak_at(
            "mods/A_P.pak",
            &[
                plain("Loose/Same.bin", b"same"),
                plain("Loose/OnlyA.bin", b"a"),
                plain("Maps/Level.uasset", b"header"),
                plain("Maps/Level.uexp", b"body"),
            ],
        ),
        pak_at(
            "mods/B_P.pak",
            &[
                plain("loose/same.BIN", b"same"),
                plain("Loose/OnlyB.bin", b"b"),
                plain("Maps/Level.uasset", b"header"),
                plain("Maps/Level.uexp", b"body"),
            ],
        ),
    ];
    let plan = plan_for(&inputs).unwrap();
    let actions: Vec<(&str, AssetActionKind)> = plan
        .assets
        .iter()
        .map(|asset| (asset.virtual_path.as_str(), asset.action))
        .collect();
    assert_eq!(
        actions,
        [
            ("Loose/OnlyA.bin", AssetActionKind::Copy),
            ("Loose/OnlyB.bin", AssetActionKind::Copy),
            ("Loose/Same.bin", AssetActionKind::Deduplicate),
            ("Maps/Level", AssetActionKind::Deduplicate),
        ]
    );
    assert!(plan.conflicts.is_empty());
    let (output, report) = written(&inputs, &plan, no_choices(&plan));
    let mut archive = output.open();
    let paths: Vec<&str> = archive
        .inventory()
        .entries
        .iter()
        .map(|entry| entry.path.as_str())
        .collect();
    assert_eq!(
        paths,
        [
            "Loose/OnlyA.bin",
            "Loose/OnlyB.bin",
            "Loose/Same.bin",
            "Maps/Level.uasset",
            "Maps/Level.uexp",
        ]
    );
    assert_eq!(archive.read_entry("Loose/OnlyB.bin").unwrap(), b"b");
    assert!(verified(&output, &report).valid);
    let mut wrong = report.clone();
    wrong.output_entry_count += 1;
    assert!(!verified(&output, &wrong).valid);
}

#[test]
fn a_whole_row_choice_copies_the_row_of_the_chosen_pak() {
    let base = "Local/DataBase/Test/WholeRow";
    let uexp = format!("{base}.uexp");
    let inputs = [
        table_pak("mods/A_P.pak", base, test_asset(test_row(1, 10, 20))),
        table_pak("mods/B_P.pak", base, test_asset(id_only_row(1))),
    ];
    let plan = plan_for(&inputs).unwrap();
    let wanted = input_id(&plan, "mods/B_P.pak");
    let resolutions = choices_by(&plan, |group| {
        assert_eq!(group, "__whole_row__");
        wanted.clone()
    });
    let (output, report) = written(&inputs, &plan, resolutions);
    assert_eq!(rows_of(&output, &uexp), [(1, id_only_row(1))]);
    assert_eq!(report.raw_preserved_nodes, 0);
    assert_eq!(report.raw_replaced_nodes, 1);
    assert!(verified(&output, &report).valid);
}

#[test]
fn a_row_that_two_paks_add_differently_needs_a_choice() {
    let base = "Local/DataBase/Test/Added";
    let uexp = format!("{base}.uexp");
    let inputs = [
        table_pak("mods/A_P.pak", base, test_asset(test_row(1, 10, 20))),
        table_pak(
            "mods/B_P.pak",
            base,
            test_asset_rows(vec![test_row(1, 10, 20), test_row(2, 1, 1)]),
        ),
        table_pak(
            "mods/C_P.pak",
            base,
            test_asset_rows(vec![test_row(1, 10, 20), test_row(2, 2, 2)]),
        ),
    ];
    let plan = plan_for(&inputs).unwrap();
    let blocking: Vec<_> = plan
        .conflicts
        .iter()
        .filter(|conflict| conflict.blocking)
        .collect();
    assert_eq!(blocking.len(), 1);
    assert_eq!(blocking[0].kind, ConflictKind::RowIdCollision);
    assert_eq!(blocking[0].row_id.as_deref(), Some("2"));
    let wanted = input_id(&plan, "mods/C_P.pak");
    let resolutions = choices_by(&plan, |_| wanted.clone());
    let (output, _) = written(&inputs, &plan, resolutions);
    assert_eq!(
        rows_of(&output, &uexp),
        [(1, test_row(1, 10, 20)), (2, test_row(2, 2, 2))]
    );
}
