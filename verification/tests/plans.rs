//! Headers, conflicts, choices and audits, each on its own.
use std::collections::BTreeMap;

use pak_merger::merge::audit::{
    finalize_raw_preservation_audits, PendingRawPreservationAudit, RawAuditAccumulator,
};
use pak_merger::merge::conflicts::make_conflict;
use pak_merger::merge::providers::missing_package_component;
use pak_merger::merge::resolve::build_report_conflict_records;
use pak_merger::merge::uasset::{parse_uasset_shell, patch_serial_size};
use pak_merger::merge::verify::{output_compression_errors, raw_audit_inventory_errors};
use pak_merger::merge::{
    resolve, AnalysisRequest, ConflictKind, MergeError, MergePlan, Provenance, ResolutionSet,
    Variant,
};
use pak_merger::ordered::OrderedMap;
use pak_merger::pak::archive::{OutsideReading, SecondReading};
use pak_merger::pak::decode::DecoderOutput;
use pak_merger::pak::index::fnv64_path;
use pak_merger::pak::paths::PackageComponents;
use pak_merger::pak::{
    inspect_pak, OutputCompression, PackageComponent, PackageGroup, PakInventory, PakVersion,
};
use sha1::{Digest, Sha1};
use sha2::Sha256;

const MOUNT: &str = "../../../Example/Content/";
const SEED: u64 = 0x1234_5678;
const PAK_MAGIC: u32 = 0x5A6F_12E1;
const PACKAGE_TAG_SIZE: usize = 4;

/// A file as an archive stores it: its stored bytes, its logical size, and for a
/// compressed file the sizes of its stored blocks and the logical block size.
struct Stored {
    path: String,
    bytes: Vec<u8>,
    size: u64,
    blocks: Option<(Vec<u64>, u32)>,
}

fn plain(path: &str, bytes: &[u8]) -> Stored {
    Stored {
        path: path.to_owned(),
        bytes: bytes.to_vec(),
        size: bytes.len() as u64,
        blocks: None,
    }
}

fn put_fstring(out: &mut Vec<u8>, text: &str) {
    if text.is_ascii() {
        out.extend(((text.len() + 1) as i32).to_le_bytes());
        out.extend(text.as_bytes());
        out.push(0);
    } else {
        let units: Vec<u16> = text.encode_utf16().collect();
        out.extend((-((units.len() + 1) as i32)).to_le_bytes());
        for unit in units {
            out.extend(unit.to_le_bytes());
        }
        out.extend([0, 0]);
    }
}

/// The header that stands before a stored file.
fn file_header(file: &Stored, offset: u64, version: u32) -> Vec<u8> {
    let mut out = Vec::new();
    out.extend(offset.to_le_bytes());
    out.extend((file.bytes.len() as u64).to_le_bytes());
    out.extend(file.size.to_le_bytes());
    let method: u32 = if file.blocks.is_some() { 1 } else { 0 };
    out.extend(method.to_le_bytes());
    out.extend(Sha1::digest(&file.bytes));
    if version >= 3 {
        if let Some((sizes, _)) = &file.blocks {
            let header = 53 + 4 + 16 * sizes.len() as u64;
            out.extend((sizes.len() as u32).to_le_bytes());
            let mut at = header;
            for size in sizes {
                out.extend(at.to_le_bytes());
                at += size;
                out.extend(at.to_le_bytes());
            }
        }
        out.push(0);
        let block_size = file.blocks.as_ref().map_or(0, |blocks| blocks.1);
        out.extend(block_size.to_le_bytes());
    }
    out
}

fn encoded_record(file: &Stored, offset: u64) -> Vec<u8> {
    let mut bits: u32 = (1 << 31) | (1 << 30) | (1 << 29);
    let mut tail = Vec::new();
    let mut sizes_tail = Vec::new();
    let mut block_size_tail = Vec::new();
    if let Some((sizes, block_size)) = &file.blocks {
        bits |= 1 << 23;
        bits |= (sizes.len() as u32) << 6;
        bits |= 63;
        block_size_tail.extend(block_size.to_le_bytes());
        if sizes.len() > 1 {
            for size in sizes {
                sizes_tail.extend((*size as u32).to_le_bytes());
            }
        }
    }
    tail.extend(bits.to_le_bytes());
    tail.extend(block_size_tail);
    tail.extend((offset as u32).to_le_bytes());
    tail.extend((file.size as u32).to_le_bytes());
    if file.blocks.is_some() {
        tail.extend((file.bytes.len() as u32).to_le_bytes());
    }
    tail.extend(sizes_tail);
    tail
}

/// A version 11 archive.
fn v11_pak(mount: &str, seed: u64, files: &[Stored], slot: &str) -> Vec<u8> {
    let mut out = Vec::new();
    let mut records = Vec::new();
    let mut offsets = Vec::new();
    for file in files {
        let offset = out.len() as u64;
        offsets.push(records.len() as u32);
        records.extend(encoded_record(file, offset));
        out.extend(file_header(file, 0, 11));
        out.extend(&file.bytes);
    }
    let mut hashes = Vec::new();
    hashes.extend((files.len() as u32).to_le_bytes());
    for (file, offset) in files.iter().zip(&offsets) {
        hashes.extend(fnv64_path(&file.path, seed).to_le_bytes());
        hashes.extend(offset.to_le_bytes());
    }
    hashes.extend(0_u32.to_le_bytes());
    let mut folders: BTreeMap<String, Vec<(String, u32)>> = BTreeMap::new();
    for (file, offset) in files.iter().zip(&offsets) {
        let (folder, name) = match file.path.rsplit_once('/') {
            Some((folder, name)) => (format!("{folder}/"), name.to_owned()),
            None => ("/".to_owned(), file.path.clone()),
        };
        folders.entry(folder).or_default().push((name, *offset));
    }
    let mut directory = Vec::new();
    directory.extend((folders.len() as u32).to_le_bytes());
    for (folder, names) in &folders {
        put_fstring(&mut directory, folder);
        directory.extend((names.len() as u32).to_le_bytes());
        for (name, offset) in names {
            put_fstring(&mut directory, name);
            directory.extend(offset.to_le_bytes());
        }
    }
    let index_offset = out.len() as u64;
    let mut mount_text = Vec::new();
    put_fstring(&mut mount_text, mount);
    let index_size = mount_text.len() + 4 + 8 + 4 + 36 + 4 + 36 + 4 + records.len() + 4;
    let hashes_offset = index_offset + index_size as u64;
    let directory_offset = hashes_offset + hashes.len() as u64;
    let mut index = mount_text;
    index.extend((files.len() as u32).to_le_bytes());
    index.extend(seed.to_le_bytes());
    index.extend(1_u32.to_le_bytes());
    index.extend(hashes_offset.to_le_bytes());
    index.extend((hashes.len() as u64).to_le_bytes());
    index.extend(Sha1::digest(&hashes));
    index.extend(1_u32.to_le_bytes());
    index.extend(directory_offset.to_le_bytes());
    index.extend((directory.len() as u64).to_le_bytes());
    index.extend(Sha1::digest(&directory));
    index.extend((records.len() as u32).to_le_bytes());
    index.extend(&records);
    index.extend(0_u32.to_le_bytes());
    assert_eq!(index.len(), index_size);
    out.extend(&index);
    out.extend(&hashes);
    out.extend(&directory);
    out.extend([0; 17]);
    out.extend(PAK_MAGIC.to_le_bytes());
    out.extend(11_u32.to_le_bytes());
    out.extend(index_offset.to_le_bytes());
    out.extend((index.len() as u64).to_le_bytes());
    out.extend(Sha1::digest(&index));
    let mut slots = [0_u8; 160];
    slots[..slot.len()].copy_from_slice(slot.as_bytes());
    out.extend(slots);
    out
}

fn inspected(files: &[Stored], slot: &str, outputs: Vec<DecoderOutput>) -> PakInventory {
    let bytes = v11_pak(MOUNT, SEED, files, slot);
    let reading = OutsideReading {
        oodle_failure: None,
        reader: Ok(SecondReading {
            version: PakVersion::V11,
            encrypted_index: false,
            mount_point: MOUNT.to_owned(),
            path_hash_seed: Some(SEED),
            files: files.iter().map(|file| file.path.clone()).collect(),
        }),
        maximum_uexp_bytes: 1 << 30,
        uexp_tags: Vec::new(),
        outputs,
    };
    inspect_pak("inspected.pak", &bytes, &reading).unwrap()
}

fn append_uasset_name(output: &mut Vec<u8>, value: &str) {
    output.extend_from_slice(&((value.len() + 1) as i32).to_le_bytes());
    output.extend_from_slice(value.as_bytes());
    output.push(0);
    output.extend_from_slice(&[0; 4]);
}

fn uasset_with_metadata(
    base: &str,
    uexp_size: usize,
    package_guid_byte: u8,
    bulk_data_start_offset: Option<u64>,
    trailing_padding: usize,
) -> Vec<u8> {
    let serial_size = (uexp_size - PACKAGE_TAG_SIZE) as u64;
    let logical_base = base
        .trim_start_matches('/')
        .strip_prefix("Octopath_Traveler0/Content/")
        .unwrap_or_else(|| base.trim_start_matches('/'));
    let package_path = format!("/Game/{logical_base}");
    let object_name = logical_base.rsplit('/').next().unwrap();
    let folder_len = package_path.len() + 1;
    let folder_end = 0x24 + folder_len;
    let bulk_offset = folder_end + 0x8C;
    let name_offset = (bulk_offset + 8 + 3) & !3;
    let names = [
        package_path.as_str(),
        "/Script/CoreUObject",
        "/Script/Kingship",
        "BinaryAsset",
        "Class",
        "Default__BinaryAsset",
        object_name,
        "Package",
    ];

    let mut uasset = vec![0; name_offset];
    for name in names {
        append_uasset_name(&mut uasset, name);
    }
    while uasset.len() % 4 != 0 {
        uasset.push(0);
    }
    let import_offset = uasset.len();
    uasset.resize(import_offset + 3 * 32, 0);
    // ClassIndex -2 resolves to import 1, whose ObjectName is BinaryAsset.
    uasset[import_offset + 32 + 20..import_offset + 32 + 24]
        .copy_from_slice(&3_u32.to_le_bytes());
    while uasset.len() % 4 != 0 {
        uasset.push(0);
    }
    let export_offset = uasset.len();
    uasset.resize(export_offset + 112 + trailing_padding, 0);
    let header_size = uasset.len();

    uasset[..PACKAGE_TAG_SIZE].copy_from_slice(&[0xC1, 0x83, 0x2A, 0x9E]);
    uasset[4..8].copy_from_slice(&(-8_i32).to_le_bytes());
    uasset[0x1C..0x20].copy_from_slice(&(header_size as u32).to_le_bytes());
    uasset[0x20..0x24].copy_from_slice(&(folder_len as i32).to_le_bytes());
    uasset[0x24..0x24 + package_path.len()].copy_from_slice(package_path.as_bytes());
    uasset[0x24 + package_path.len()] = 0;
    uasset[folder_end..folder_end + 4].copy_from_slice(&0x8000_2200_u32.to_le_bytes());
    uasset[folder_end + 4..folder_end + 8].copy_from_slice(&(names.len() as u32).to_le_bytes());
    uasset[folder_end + 8..folder_end + 12]
        .copy_from_slice(&(name_offset as u32).to_le_bytes());
    uasset[folder_end + 0x1C..folder_end + 0x20].copy_from_slice(&1_u32.to_le_bytes());
    uasset[folder_end + 0x20..folder_end + 0x24]
        .copy_from_slice(&(export_offset as u32).to_le_bytes());
    uasset[folder_end + 0x24..folder_end + 0x28].copy_from_slice(&3_u32.to_le_bytes());
    uasset[folder_end + 0x28..folder_end + 0x2C]
        .copy_from_slice(&(import_offset as u32).to_le_bytes());
    uasset[folder_end + 0x40..folder_end + 0x50].fill(package_guid_byte);
    let bulk_value = bulk_data_start_offset.unwrap_or_else(|| header_size as u64 + serial_size);
    uasset[bulk_offset..bulk_offset + 8].copy_from_slice(&bulk_value.to_le_bytes());

    uasset[export_offset..export_offset + 4].copy_from_slice(&(-2_i32).to_le_bytes());
    uasset[export_offset + 0x10..export_offset + 0x14].copy_from_slice(&6_u32.to_le_bytes());
    uasset[export_offset + 0x1C..export_offset + 0x24]
        .copy_from_slice(&serial_size.to_le_bytes());
    uasset[export_offset + 0x24..export_offset + 0x2C]
        .copy_from_slice(&(header_size as u64).to_le_bytes());
    uasset
}

fn uasset_with_serial_size(base: &str, uexp_size: usize) -> Vec<u8> {
    uasset_with_metadata(base, uexp_size, 0x11, None, 0)
}

#[test]
fn serial_size_patch_uses_only_the_structural_export_slot() {
    let old_size = 100_usize;
    let new_size = 120_usize;
    let old_serial = (old_size - PACKAGE_TAG_SIZE) as u64;
    let base = "Local/DataBase/Test/SerialPatch";
    let mut uasset = uasset_with_metadata(base, old_size, 0x11, None, 16);
    let unrelated_offset = uasset.len() - 8;
    uasset[unrelated_offset..].copy_from_slice(&old_serial.to_le_bytes());
    let descriptor = parse_uasset_shell(&uasset, old_size, Some(base)).unwrap();
    let patched = patch_serial_size(&uasset, old_size, new_size).unwrap();
    assert_eq!(
        &patched[descriptor.serial_size_offset..descriptor.serial_size_offset + 8],
        &((new_size - PACKAGE_TAG_SIZE) as u64).to_le_bytes()
    );
    assert_eq!(&patched[unrelated_offset..], &old_serial.to_le_bytes());
    for index in 0..uasset.len() {
        if !(descriptor.serial_size_offset..descriptor.serial_size_offset + 8).contains(&index)
        {
            assert_eq!(
                patched[index], uasset[index],
                "unexpected change at {index:#x}"
            );
        }
    }
}

#[test]
fn serial_size_patch_preserves_bulk_boundary_and_validates_even_without_size_change() {
    let old_uexp_size = 100usize;
    let new_uexp_size = 140usize;
    let old_serial = (old_uexp_size - PACKAGE_TAG_SIZE) as u64;
    let base = "Local/DataBase/Test/BulkBoundary";
    let first = uasset_with_serial_size(base, old_uexp_size);
    let header_size = first.len() as u64;
    let uasset =
        uasset_with_metadata(base, old_uexp_size, 0x11, Some(header_size + old_serial), 0);
    let descriptor = parse_uasset_shell(&uasset, old_uexp_size, Some(base)).unwrap();
    let original_bulk = uasset
        [descriptor.bulk_data_start_offset..descriptor.bulk_data_start_offset + 8]
        .to_vec();

    let patched = patch_serial_size(&uasset, old_uexp_size, new_uexp_size).unwrap();
    assert_eq!(
        &patched[descriptor.bulk_data_start_offset..descriptor.bulk_data_start_offset + 8],
        original_bulk
    );

    let mut malformed = uasset.clone();
    malformed[0] ^= 0x7F;
    assert!(patch_serial_size(&malformed, old_uexp_size, old_uexp_size).is_err());
}

#[test]
fn unresolved_conflicts_block_resolution() {
    let conflict = make_conflict(
        ConflictKind::FieldValue,
        "Local/DataBase/Test",
        Some(1),
        Some("field:x"),
        "test",
        vec![Variant {
            id: "v1".to_owned(),
            label: "A".to_owned(),
            input_id: "a".to_owned(),
            raw_sha256: "00".to_owned(),
            semantic_sha256: "00".to_owned(),
            preview: "1".to_owned(),
            marker: "integer".to_owned(),
            provenance: Provenance {
                input_id: "a".to_owned(),
                input_path: "a.pak".to_owned(),
                entry_path: None,
                raw_sha256: "00".to_owned(),
            },
        }],
        true,
    );
    let plan = MergePlan {
        schema_version: 1,
        plan_id: "p".to_owned(),
        request: AnalysisRequest {
            pak_paths: vec!["a.pak".to_owned()],
            carrier_path: "a.pak".to_owned(),
        },
        inputs: vec![],
        carrier_input_id: "a".to_owned(),
        assets: vec![],
        conflicts: vec![conflict],
        warnings: vec![],
        selected_profile_id: None,
        profile_detection_status: None,
        encoding_drift_count: 0,
        full_reencode_forbidden: true,
    };
    let resolutions = ResolutionSet {
        plan_id: "p".to_owned(),
        ..ResolutionSet::default()
    };
    assert!(resolve(plan, resolutions).is_err());
}

#[test]
fn encoding_drift_report_falls_back_to_first_variant_without_carrier() {
    let first = Variant {
        id: "variant-a".to_owned(),
        label: "A".to_owned(),
        input_id: "input-a".to_owned(),
        raw_sha256: "11".repeat(32),
        semantic_sha256: "22".repeat(32),
        preview: "1".to_owned(),
        marker: "positive-fixint".to_owned(),
        provenance: Provenance {
            input_id: "input-a".to_owned(),
            input_path: "a.pak".to_owned(),
            entry_path: Some("Local/DataBase/Test.uexp".to_owned()),
            raw_sha256: "11".repeat(32),
        },
    };
    let second = Variant {
        id: "variant-b".to_owned(),
        label: "B".to_owned(),
        input_id: "input-b".to_owned(),
        raw_sha256: "33".repeat(32),
        semantic_sha256: "22".repeat(32),
        preview: "1".to_owned(),
        marker: "uint8".to_owned(),
        provenance: Provenance {
            input_id: "input-b".to_owned(),
            input_path: "b.pak".to_owned(),
            entry_path: Some("Local/DataBase/Test.uexp".to_owned()),
            raw_sha256: "33".repeat(32),
        },
    };
    let conflict = make_conflict(
        ConflictKind::EncodingDrift,
        "Local/DataBase/Test",
        Some(1),
        Some("field:x"),
        "same value with different raw encoding",
        vec![first, second],
        false,
    );
    let conflict_id = conflict.id.clone();
    let plan = MergePlan {
        schema_version: 1,
        plan_id: "plan".to_owned(),
        request: AnalysisRequest {
            pak_paths: vec!["a.pak".to_owned()],
            carrier_path: "missing-carrier.pak".to_owned(),
        },
        inputs: Vec::new(),
        carrier_input_id: "missing-carrier".to_owned(),
        assets: Vec::new(),
        conflicts: vec![conflict],
        warnings: Vec::new(),
        selected_profile_id: None,
        profile_detection_status: None,
        encoding_drift_count: 0,
        full_reencode_forbidden: true,
    };
    let records =
        build_report_conflict_records(&plan, &ResolutionSet::default(), "missing-carrier");
    assert_eq!(records.len(), 1);
    assert_eq!(records[0].conflict_id, conflict_id);
    assert!(records[0].automatic);
    assert_eq!(
        records[0]
            .selected_variant
            .as_ref()
            .map(|variant| variant.id.as_str()),
        Some("variant-a")
    );
}

#[test]
fn merge_errors_keep_resource_package_and_plan_failures_distinct() {
    assert_eq!(
        MergeError::AllocationFailed("field choices").message(),
        "not enough memory for field choices"
    );
    assert_eq!(
        MergeError::SizeOverflow("database index").message(),
        "database index is too large"
    );
    assert_eq!(
        MergeError::InvalidPlan("an input row is missing".to_owned()).message(),
        "the merge plan is inconsistent: an input row is missing"
    );

    let group = PackageGroup {
        base_path: "Game/Data/Table".to_owned(),
        components: PackageComponents::new(),
        complete: false,
    };
    assert!(matches!(
        missing_package_component(&group, PackageComponent::Uexp),
        MergeError::MissingPackageComponent {
            package,
            component: ".uexp"
        } if package == "Game/Data/Table"
    ));
}

#[test]
fn streamed_audit_is_finalized_from_the_verified_pak_inventory() {
    let entry_path = "Local/DataBase/Test/Audit.uexp";
    let entry_bytes = b"already-streamed-database";
    let inventory = inspected(&[plain(entry_path, entry_bytes)], "", Vec::new());
    let verified_entry_sha256 = inventory
        .entries
        .iter()
        .find(|entry| entry.path == entry_path)
        .unwrap()
        .sha256
        .clone();
    let mut writer_source_sha256 = OrderedMap::new();
    writer_source_sha256.insert(entry_path.to_owned(), verified_entry_sha256.clone());

    let make_pending = |expected_entry_size| PendingRawPreservationAudit {
        asset_path: "Local/DataBase/Test/Audit".to_owned(),
        pak_entry_path: entry_path.to_owned(),
        expected_entry_size,
        audit: RawAuditAccumulator {
            ledger: b"row-checks-completed-while-streaming".to_vec(),
            verified_rows: 3,
            verified_units: 5,
            preserved_nodes: 7,
            replaced_nodes: 2,
        },
    };

    let audits = finalize_raw_preservation_audits(
        &vec![make_pending(entry_bytes.len() as u64)],
        &inventory,
        &writer_source_sha256,
    )
    .unwrap();
    assert_eq!(audits.len(), 1);
    assert_eq!(audits[0].verified_row_count, 3);
    assert_eq!(audits[0].verified_atomic_unit_count, 5);
    assert_eq!(audits[0].entry_sha256, verified_entry_sha256);
    assert!(raw_audit_inventory_errors(&audits, &inventory).is_empty());

    let mut same_size_wrong_source = OrderedMap::new();
    same_size_wrong_source.insert(
        entry_path.to_owned(),
        hex::encode(Sha256::digest(vec![0_u8; entry_bytes.len()])),
    );
    let error = finalize_raw_preservation_audits(
        &vec![make_pending(entry_bytes.len() as u64)],
        &inventory,
        &same_size_wrong_source,
    )
    .unwrap_err();
    assert!(error.message().contains("source hash mismatch"));

    let error = finalize_raw_preservation_audits(
        &vec![make_pending(entry_bytes.len() as u64 + 1)],
        &inventory,
        &writer_source_sha256,
    )
    .unwrap_err();
    assert!(error.message().contains("size mismatch"));
}

#[test]
fn output_storage_validation_distinguishes_plain_oodle_and_other_codecs() {
    let plain_inventory = inspected(&[plain("Data/Test.bin", &[1; 32_000])], "", Vec::new());
    assert!(output_compression_errors(&plain_inventory, OutputCompression::Uncompressed).is_empty());
    assert!(!output_compression_errors(&plain_inventory, OutputCompression::Oodle).is_empty());

    let file = Stored {
        path: "Data/Test.bin".to_owned(),
        bytes: vec![0x33; 40],
        size: 32_000,
        blocks: Some((vec![40], 32_000)),
    };
    let output = DecoderOutput {
        reader: Ok(vec![vec![1; 32_000]]),
        oodle: Err(String::new()),
    };
    let compressed = inspected(&[file], "Zstd", vec![output]);
    assert!(!output_compression_errors(&compressed, OutputCompression::Uncompressed).is_empty());
    let oodle_errors = output_compression_errors(&compressed, OutputCompression::Oodle);
    assert!(oodle_errors
        .iter()
        .any(|error| error.contains("does not declare only Oodle")));
}
