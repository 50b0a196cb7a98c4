//! Archives that are read and written.
use std::cell::RefCell;
use std::collections::BTreeMap;

use pak_merger::pak::access::{PakEntryData, MAX_IN_MEMORY_ENTRY_BYTES};
use pak_merger::pak::archive::{
    total_work_bytes, LogicalValidation, OutsideReading, SecondReading,
};
use pak_merger::pak::blocks::{
    build_direct_decode_plan, validate_compression_blocks, validate_compression_method,
    CompressionBlock, DirectDecodeBlock, DirectDecodeCodec, DirectDecodePlan,
    LegacyEntryMetadata, DIRECT_DECODE_LOGICAL_BLOCK_THRESHOLD,
    DIRECT_DECODE_STORED_BLOCK_THRESHOLD,
};
use pak_merger::pak::decode::{
    decode_entry_with_progress, DecoderOutput, LogicalEntryWriter, RepakError,
};
use pak_merger::pak::entries::EntryRecord;
use pak_merger::pak::footer::{
    read_footer, DetectedFooter, MIN_PAK_FOOTER_SIZE, PAK_V11_FOOTER_SIZE,
};
use pak_merger::pak::index::fnv64_path;
use pak_merger::pak::reader::SliceReader;
use pak_merger::pak::paths::normalized_sort_key;
use pak_merger::pak::write::{
    collect_sources, prepare_write, scan_reports, verification_progress, ProgressGate,
};
use pak_merger::pak::{
    inspect, inspect_pak, verify_pak_v11, write_pak_v11_from_mapped_provider_with_source_hashes,
    write_pak_v11_from_provider, write_pak_v11_to,
    OutputCompression, PakArchive, PakError, PakFooterInfo, PakOpenProgress, PakVersion,
    PakWriteEntry, PakWriteProgress,
};
use sha1::{Digest, Sha1};
use sha2::Sha256;

const MOUNT: &str = "../../../Game/Content/";
const SEED: u64 = 0x1234_5678;
const PAK_MAGIC: u32 = 0x5A6F_12E1;
const NO_FILES: u64 = 1 << 30;

/// A file as an archive stores it: its stored bytes, its logical size, and for a
/// compressed file the sizes of its stored blocks and the logical block size.
struct Stored {
    path: String,
    bytes: Vec<u8>,
    size: u64,
    blocks: Option<(Vec<u64>, u32)>,
}

fn plain(path: &str, bytes: &[u8]) -> Stored {
    Stored {
        path: path.to_owned(),
        bytes: bytes.to_vec(),
        size: bytes.len() as u64,
        blocks: None,
    }
}

fn put_fstring(out: &mut Vec<u8>, text: &str) {
    if text.is_ascii() {
        out.extend(((text.len() + 1) as i32).to_le_bytes());
        out.extend(text.as_bytes());
        out.push(0);
    } else {
        let units: Vec<u16> = text.encode_utf16().collect();
        out.extend((-((units.len() + 1) as i32)).to_le_bytes());
        for unit in units {
            out.extend(unit.to_le_bytes());
        }
        out.extend([0, 0]);
    }
}

/// The header that stands before a stored file.
fn file_header(file: &Stored, offset: u64, version: u32) -> Vec<u8> {
    let mut out = Vec::new();
    out.extend(offset.to_le_bytes());
    out.extend((file.bytes.len() as u64).to_le_bytes());
    out.extend(file.size.to_le_bytes());
    let method: u32 = if file.blocks.is_some() { 1 } else { 0 };
    out.extend(method.to_le_bytes());
    out.extend(Sha1::digest(&file.bytes));
    if version >= 3 {
        if let Some((sizes, _)) = &file.blocks {
            let header = 53 + 4 + 16 * sizes.len() as u64;
            out.extend((sizes.len() as u32).to_le_bytes());
            let mut at = header;
            for size in sizes {
                out.extend(at.to_le_bytes());
                at += size;
                out.extend(at.to_le_bytes());
            }
        }
        out.push(0);
        let block_size = file.blocks.as_ref().map_or(0, |blocks| blocks.1);
        out.extend(block_size.to_le_bytes());
    }
    out
}

fn encoded_record(file: &Stored, offset: u64) -> Vec<u8> {
    let mut bits: u32 = (1 << 31) | (1 << 30) | (1 << 29);
    let mut tail = Vec::new();
    let mut sizes_tail = Vec::new();
    let mut block_size_tail = Vec::new();
    if let Some((sizes, block_size)) = &file.blocks {
        bits |= 1 << 23;
        bits |= (sizes.len() as u32) << 6;
        bits |= 63;
        block_size_tail.extend(block_size.to_le_bytes());
        if sizes.len() > 1 {
            for size in sizes {
                sizes_tail.extend((*size as u32).to_le_bytes());
            }
        }
    }
    tail.extend(bits.to_le_bytes());
    tail.extend(block_size_tail);
    tail.extend((offset as u32).to_le_bytes());
    tail.extend((file.size as u32).to_le_bytes());
    if file.blocks.is_some() {
        tail.extend((file.bytes.len() as u32).to_le_bytes());
    }
    tail.extend(sizes_tail);
    tail
}

/// A version 11 archive.
fn v11_pak(mount: &str, seed: u64, files: &[Stored], slot: &str) -> Vec<u8> {
    modern_pak(11, mount, seed, files, slot)
}

/// An archive with the indexes of versions 10 and 11.
fn modern_pak(version: u32, mount: &str, seed: u64, files: &[Stored], slot: &str) -> Vec<u8> {
    let mut out = Vec::new();
    let mut records = Vec::new();
    let mut offsets = Vec::new();
    for file in files {
        let offset = out.len() as u64;
        offsets.push(records.len() as u32);
        records.extend(encoded_record(file, offset));
        out.extend(file_header(file, 0, 11));
        out.extend(&file.bytes);
    }
    let mut hashes = Vec::new();
    hashes.extend((files.len() as u32).to_le_bytes());
    for (file, offset) in files.iter().zip(&offsets) {
        hashes.extend(fnv64_path(&file.path, seed).to_le_bytes());
        hashes.extend(offset.to_le_bytes());
    }
    hashes.extend(0_u32.to_le_bytes());
    let mut folders: BTreeMap<String, Vec<(String, u32)>> = BTreeMap::new();
    for (file, offset) in files.iter().zip(&offsets) {
        let (folder, name) = match file.path.rsplit_once('/') {
            Some((folder, name)) => (format!("{folder}/"), name.to_owned()),
            None => ("/".to_owned(), file.path.clone()),
        };
        folders.entry(folder).or_default().push((name, *offset));
    }
    let mut directory = Vec::new();
    directory.extend((folders.len() as u32).to_le_bytes());
    for (folder, names) in &folders {
        put_fstring(&mut directory, folder);
        directory.extend((names.len() as u32).to_le_bytes());
        for (name, offset) in names {
            put_fstring(&mut directory, name);
            directory.extend(offset.to_le_bytes());
        }
    }
    let index_offset = out.len() as u64;
    let mut mount_text = Vec::new();
    put_fstring(&mut mount_text, mount);
    let index_size = mount_text.len() + 4 + 8 + 4 + 36 + 4 + 36 + 4 + records.len() + 4;
    let hashes_offset = index_offset + index_size as u64;
    let directory_offset = hashes_offset + hashes.len() as u64;
    let mut index = mount_text;
    index.extend((files.len() as u32).to_le_bytes());
    index.extend(seed.to_le_bytes());
    index.extend(1_u32.to_le_bytes());
    index.extend(hashes_offset.to_le_bytes());
    index.extend((hashes.len() as u64).to_le_bytes());
    index.extend(Sha1::digest(&hashes));
    index.extend(1_u32.to_le_bytes());
    index.extend(directory_offset.to_le_bytes());
    index.extend((directory.len() as u64).to_le_bytes());
    index.extend(Sha1::digest(&directory));
    index.extend((records.len() as u32).to_le_bytes());
    index.extend(&records);
    index.extend(0_u32.to_le_bytes());
    assert_eq!(index.len(), index_size);
    out.extend(&index);
    out.extend(&hashes);
    out.extend(&directory);
    out.extend([0; 17]);
    out.extend(PAK_MAGIC.to_le_bytes());
    out.extend(version.to_le_bytes());
    out.extend(index_offset.to_le_bytes());
    out.extend((index.len() as u64).to_le_bytes());
    out.extend(Sha1::digest(&index));
    let mut slots = [0_u8; 160];
    slots[..slot.len()].copy_from_slice(slot.as_bytes());
    out.extend(slots);
    out
}

/// A version 3 archive of plain files.
fn v3_pak(mount: &str, files: &[Stored]) -> Vec<u8> {
    let mut out = Vec::new();
    let mut index = Vec::new();
    put_fstring(&mut index, mount);
    index.extend((files.len() as u32).to_le_bytes());
    for file in files {
        let offset = out.len() as u64;
        put_fstring(&mut index, &file.path);
        index.extend(file_header(file, offset, 3));
        out.extend(file_header(file, 0, 3));
        out.extend(&file.bytes);
    }
    let index_offset = out.len() as u64;
    out.extend(&index);
    out.extend(PAK_MAGIC.to_le_bytes());
    out.extend(3_u32.to_le_bytes());
    out.extend(index_offset.to_le_bytes());
    out.extend((index.len() as u64).to_le_bytes());
    out.extend(Sha1::digest(&index));
    out
}

fn reading_of(
    version: PakVersion,
    mount: &str,
    seed: Option<u64>,
    files: &[&str],
    outputs: Vec<DecoderOutput>,
) -> OutsideReading {
    OutsideReading {
        oodle_failure: None,
        reader: Ok(SecondReading {
            version,
            encrypted_index: false,
            mount_point: mount.to_owned(),
            path_hash_seed: seed,
            files: files.iter().map(|path| (*path).to_owned()).collect(),
        }),
        maximum_uexp_bytes: NO_FILES,
        uexp_tags: Vec::new(),
        outputs,
    }
}

fn v11_reading(files: &[&str]) -> OutsideReading {
    reading_of(PakVersion::V11, MOUNT, Some(SEED), files, Vec::new())
}

fn one_file_pak() -> Vec<u8> {
    v11_pak(MOUNT, SEED, &[plain("A/One.uasset", b"one")], "")
}

fn one_file_reading() -> OutsideReading {
    v11_reading(&["A/One.uasset"])
}

/// An archive with one compressed file, whose decoder yields `payload`.
fn compressed_pak(slot: &str, payload: &[u8]) -> (Vec<u8>, OutsideReading) {
    let bytes = v11_pak(MOUNT, SEED, &[compressed_file(payload)], slot);
    (bytes, compressed_reading(PakVersion::V11, Some(SEED), payload))
}

/// A compressed file in blocks of 64 KiB, of which each is stored in ten bytes.
fn compressed_file(payload: &[u8]) -> Stored {
    let count = payload.len().div_ceil(0x1_0000).max(1);
    let block_size = payload.len().min(0x1_0000) as u32;
    Stored {
        path: "A/Compressed.bin".to_owned(),
        bytes: vec![0x33; 10 * count],
        size: payload.len() as u64,
        blocks: Some((vec![10; count], block_size)),
    }
}

fn compressed_reading(version: PakVersion, seed: Option<u64>, payload: &[u8]) -> OutsideReading {
    let output = DecoderOutput {
        reader: Ok(payload.chunks(1000).map(|piece| piece.to_vec()).collect()),
        oodle: Err("no Oodle runtime".to_owned()),
    };
    reading_of(version, MOUNT, seed, &["A/Compressed.bin"], vec![output])
}

/// The header of a compressed file in an archive with a legacy index.
fn legacy_header(file: &Stored, version: PakVersion, method: u32, offset: u64, start: u64) -> Vec<u8> {
    let (sizes, block_size) = file.blocks.as_ref().unwrap();
    let mut out = Vec::new();
    out.extend(offset.to_le_bytes());
    out.extend((file.bytes.len() as u64).to_le_bytes());
    out.extend(file.size.to_le_bytes());
    if version == PakVersion::V8A {
        out.push(method as u8);
    } else {
        out.extend(method.to_le_bytes());
    }
    out.extend(Sha1::digest(&file.bytes));
    out.extend((sizes.len() as u32).to_le_bytes());
    let header = out.len() as u64 + 16 * sizes.len() as u64 + 5;
    let mut at = if version.version_major() < 5 {
        start + header
    } else {
        header
    };
    for size in sizes {
        out.extend(at.to_le_bytes());
        at += size;
        out.extend(at.to_le_bytes());
    }
    out.push(0);
    out.extend(block_size.to_le_bytes());
    out
}

/// An archive with a legacy index and one compressed file.
fn legacy_pak(version: PakVersion, slots: &[&str], method: u32, file: &Stored) -> Vec<u8> {
    let mut out = legacy_header(file, version, method, 0, 0);
    out.extend(&file.bytes);
    let mut index = Vec::new();
    put_fstring(&mut index, MOUNT);
    index.extend(1_u32.to_le_bytes());
    put_fstring(&mut index, &file.path);
    index.extend(legacy_header(file, version, method, 0, 0));
    let index_offset = out.len() as u64;
    out.extend(&index);
    out.extend(vec![
        0;
        match version.version_major() {
            0..=3 => 0,
            4..=6 => 1,
            _ => 17,
        }
    ]);
    out.extend(PAK_MAGIC.to_le_bytes());
    out.extend(version.version_major().to_le_bytes());
    out.extend(index_offset.to_le_bytes());
    out.extend((index.len() as u64).to_le_bytes());
    out.extend(Sha1::digest(&index));
    for slot in 0..version.slot_count() {
        let mut name = [0_u8; 32];
        if let Some(text) = slots.get(slot) {
            name[..text.len()].copy_from_slice(text.as_bytes());
        }
        out.extend(name);
    }
    out
}

/// The header of a plain file in an archive with a legacy index.
fn plain_header(bytes: &[u8], version: PakVersion) -> Vec<u8> {
    let mut out = Vec::new();
    out.extend(0_u64.to_le_bytes());
    out.extend((bytes.len() as u64).to_le_bytes());
    out.extend((bytes.len() as u64).to_le_bytes());
    if version == PakVersion::V8A {
        out.push(0);
    } else {
        out.extend(0_u32.to_le_bytes());
    }
    if version == PakVersion::V1 {
        out.extend(0_u64.to_le_bytes());
    }
    out.extend(Sha1::digest(bytes));
    if version.version_major() >= 3 {
        out.push(0);
        out.extend(0_u32.to_le_bytes());
    }
    out
}

/// An archive of any version with one plain file.
fn plain_pak(version: PakVersion, path: &str, bytes: &[u8]) -> Vec<u8> {
    let number = version.version_major();
    if number >= 10 {
        return modern_pak(number, MOUNT, SEED, &[plain(path, bytes)], "");
    }
    let mut out = plain_header(bytes, version);
    out.extend(bytes);
    let mut index = Vec::new();
    put_fstring(&mut index, MOUNT);
    index.extend(1_u32.to_le_bytes());
    put_fstring(&mut index, path);
    index.extend(plain_header(bytes, version));
    let index_offset = out.len() as u64;
    out.extend(&index);
    out.extend(vec![
        0;
        match number {
            0..=3 => 0,
            4..=6 => 1,
            _ => 17,
        }
    ]);
    out.extend(PAK_MAGIC.to_le_bytes());
    out.extend(number.to_le_bytes());
    out.extend(index_offset.to_le_bytes());
    out.extend((index.len() as u64).to_le_bytes());
    out.extend(Sha1::digest(&index));
    if version == PakVersion::V9 {
        out.push(0);
    }
    out.extend(vec![0; 32 * version.slot_count()]);
    out
}

fn output_of(payload: &[u8]) -> DecoderOutput {
    DecoderOutput {
        reader: Ok(vec![payload.to_vec()]),
        oodle: Err(String::new()),
    }
}

#[test]
fn unicode_entry_paths_round_trip_through_v11_indexes() {
    let mount = "../../../예시/Content/";
    let path = "데이터/기술 설명.bin";
    let bytes = v11_pak(mount, SEED, &[plain(path, b"unicode path")], "");
    let reading = reading_of(PakVersion::V11, mount, Some(SEED), &[path], Vec::new());
    let mut archive = PakArchive::open("unicode-path.pak", &bytes, &reading).unwrap();
    assert_eq!(archive.inventory().mount_point, "../../../예시/Content/");
    assert_eq!(
        archive.read_entry("데이터/기술 설명.bin").unwrap(),
        b"unicode path"
    );
}

#[test]
fn writer_is_deterministic_and_round_trips() {
    let entries_a = vec![
        PakWriteEntry::new("B/Two.uexp".to_owned(), b"two".to_vec()),
        PakWriteEntry::new("A/One.uasset".to_owned(), b"one".to_vec()),
    ];
    let entries_b = vec![
        PakWriteEntry::new("A/One.uasset".to_owned(), b"one".to_vec()),
        PakWriteEntry::new("B/Two.uexp".to_owned(), b"two".to_vec()),
    ];
    let first = write_pak_v11_to(MOUNT, &entries_a).unwrap();
    let second = write_pak_v11_to(MOUNT, &entries_b).unwrap();
    assert_eq!(first.mount_point, second.mount_point);
    let list = |entries: &Vec<PakWriteEntry>| -> Vec<(String, Vec<u8>)> {
        entries
            .iter()
            .map(|entry| (entry.path.clone(), entry.data.clone()))
            .collect()
    };
    assert_eq!(list(&first.entries), list(&second.entries));

    let files: Vec<Stored> = first
        .entries
        .iter()
        .map(|entry| plain(&entry.path, &entry.data))
        .collect();
    let bytes = v11_pak(&first.mount_point, SEED, &files, "");
    let reading = v11_reading(&["A/One.uasset", "B/Two.uexp"]);
    let mut archive = PakArchive::open("written.pak", &bytes, &reading).unwrap();
    assert_eq!(archive.inventory().mount_point, MOUNT);
    assert_eq!(archive.read_entry("A/One.uasset").unwrap(), b"one");
    assert_eq!(archive.read_entry("B/Two.uexp").unwrap(), b"two");
}

#[test]
fn writer_refuses_empty_and_repeated_contents() {
    assert!(matches!(
        write_pak_v11_to(MOUNT, &Vec::new()),
        Err(PakError::EmptyArchive)
    ));
    let twice = vec![
        PakWriteEntry::new("A/One.bin".to_owned(), vec![1]),
        PakWriteEntry::new("a/ONE.bin".to_owned(), vec![2]),
    ];
    assert!(matches!(
        write_pak_v11_to(MOUNT, &twice),
        Err(PakError::DuplicatePath { first, second })
            if first == "A/One.bin" && second == "a/ONE.bin"
    ));
}

#[test]
fn archive_handle_is_send_and_sync() {
    fn assert_send_sync<T: Send + Sync>() {}
    assert_send_sync::<PakArchive<'static>>();
}

#[test]
fn cancelled_logical_entry_writer_returns_a_terminal_io_error() {
    let mut writer = LogicalEntryWriter::new_cancellable(1);
    let error = writer.write(b"x", true).unwrap_err();
    assert_eq!(error, "operation cancelled");
    assert_eq!(writer.write(b"x", false).unwrap(), 1);
    assert!(writer.write(b"x", false).is_err());
    assert_eq!(writer.finish().unwrap().bytes, b"x");
}

#[test]
fn selected_source_hashes_cover_compressed_and_uncompressed_writer_input_once() {
    for compressed in [false, true] {
        let payload_size = if compressed {
            0x1_0000 * 5 + 257
        } else {
            4 * 1024 * 1024 + 257
        };
        let payload = (0..payload_size)
            .map(|index| ((index * 31) % 251) as u8)
            .collect::<Vec<u8>>();
        let expected_hash = hex::encode(Sha256::digest(&payload));
        let compression = if compressed {
            OutputCompression::Oodle
        } else {
            OutputCompression::Uncompressed
        };
        for selected in [false, true] {
            let reads = RefCell::new(0);
            let order = write_pak_v11_from_mapped_provider_with_source_hashes(
                MOUNT,
                &vec!["A/Payload.bin".to_owned()],
                compression,
                &None,
                |_: &str| {
                    *reads.borrow_mut() += 1;
                    Ok(payload.clone())
                },
                &if selected {
                    vec!["A/Payload.bin".to_owned()]
                } else {
                    Vec::new()
                },
                false,
            )
            .unwrap();
            assert_eq!(reads.into_inner(), 1);
            assert_eq!(order.entries[0].data, payload);
            let source_hash = order.source_sha256.first().map(|entry| entry.1.as_str());
            assert_eq!(source_hash, if selected { Some(expected_hash.as_str()) } else { None });
        }
    }
}

#[test]
fn the_first_failure_of_a_provider_is_reported() {
    let asked = RefCell::new(Vec::new());
    let error = write_pak_v11_from_provider(
        MOUNT,
        &vec!["C.bin".to_owned(), "a.bin".to_owned(), "B.bin".to_owned()],
        |path: &str| {
            asked.borrow_mut().push(path.to_owned());
            if path == "a.bin" {
                Ok(Vec::new())
            } else {
                Err(PakError::MissingEntry(path.to_owned()))
            }
        },
    )
    .unwrap_err();
    assert!(matches!(error, PakError::MissingEntry(path) if path == "B.bin"));
    assert_eq!(asked.into_inner(), ["a.bin", "B.bin"]);
}

#[test]
fn selected_source_hash_api_uses_written_bytes_and_preserves_legacy_output() {
    let paths = vec!["B/Other.bin".to_owned(), "A/Target.uexp".to_owned()];
    let target = b"BBBB";
    let same_size_wrong_value = b"AAAA";
    let provider = |path: &str| match path {
        "A/Target.uexp" => Ok(target.to_vec()),
        "B/Other.bin" => Ok(b"other".to_vec()),
        _ => Err(PakError::MissingEntry(path.to_owned())),
    };
    let plan = prepare_write(
        "../../../Example/Content/",
        &paths,
        &vec!["a/TARGET.uexp".to_owned()],
        OutputCompression::Uncompressed,
        &None,
        false,
    )
    .unwrap();
    let order = collect_sources(&plan, provider).unwrap();
    assert_eq!(order.source_sha256.len(), 1);
    assert_eq!(order.source_sha256[0].0, "A/Target.uexp");
    assert_eq!(
        order.source_sha256[0].1,
        hex::encode(Sha256::digest(target))
    );
    assert_ne!(
        order.source_sha256[0].1,
        hex::encode(Sha256::digest(same_size_wrong_value))
    );
    assert_eq!(order.entries[0].data, target);

    let plain_plan = prepare_write(
        "../../../Example/Content/",
        &paths,
        &Vec::new(),
        OutputCompression::Uncompressed,
        &None,
        false,
    )
    .unwrap();
    let plain_order = collect_sources(&plain_plan, provider).unwrap();
    assert!(plain_order.source_sha256.is_empty());
    assert_eq!(plain_order.entries[0].data, order.entries[0].data);
    assert_eq!(plain_order.entries[1].data, order.entries[1].data);

    let joined = write_pak_v11_from_mapped_provider_with_source_hashes(
        "../../../Example/Content/",
        &paths,
        OutputCompression::Uncompressed,
        &None,
        provider,
        &vec!["a/TARGET.uexp".to_owned()],
        false,
    )
    .unwrap();
    assert_eq!(joined.source_sha256, order.source_sha256);
    assert_eq!(joined.entries[0].data, target);
}

#[test]
fn selected_source_hash_api_rejects_a_missing_path_before_creating_output() {
    let error = prepare_write(
        "../../../Example/Content/",
        &vec!["A/Present.bin".to_owned()],
        &vec!["A/Missing.bin".to_owned()],
        OutputCompression::Uncompressed,
        &None,
        false,
    )
    .unwrap_err();
    assert!(matches!(error, PakError::MissingEntry(path) if path == "A/Missing.bin"));
    let error = write_pak_v11_from_mapped_provider_with_source_hashes(
        "../../../Example/Content/",
        &vec!["A/Present.bin".to_owned()],
        OutputCompression::Uncompressed,
        &None,
        |_: &str| panic!("no file is read"),
        &vec!["A/Missing.bin".to_owned()],
        false,
    )
    .unwrap_err();
    assert!(matches!(error, PakError::MissingEntry(path) if path == "A/Missing.bin"));
}

#[test]
fn uncompressed_output_never_initializes_oodle() {
    let failure = Some("no Oodle runtime".to_owned());
    let paths = vec!["A/One.bin".to_owned()];
    prepare_write(
        MOUNT,
        &paths,
        &Vec::new(),
        OutputCompression::Uncompressed,
        &failure,
        false,
    )
    .unwrap();
    assert!(matches!(
        prepare_write(MOUNT, &paths, &Vec::new(), OutputCompression::Oodle, &failure, false),
        Err(PakError::OodleUnavailable { path, reason })
            if path == "merged output" && reason == "no Oodle runtime"
    ));
    assert!(matches!(
        prepare_write(MOUNT, &paths, &Vec::new(), OutputCompression::Oodle, &None, true),
        Err(PakError::Cancelled)
    ));
}

#[test]
fn provider_writer_loads_one_entry_at_a_time_in_sorted_order() {
    let source = BTreeMap::from([
        ("a/One.uasset".to_owned(), b"one".to_vec()),
        ("B/Two.uexp".to_owned(), b"two".to_vec()),
    ]);
    let calls = RefCell::new(Vec::new());
    let order = write_pak_v11_from_provider(
        MOUNT,
        &vec!["B/Two.uexp".to_owned(), "a/One.uasset".to_owned()],
        |entry_path: &str| {
            calls.borrow_mut().push(entry_path.to_owned());
            Ok(source.get(entry_path).unwrap().clone())
        },
    )
    .unwrap();
    assert_eq!(calls.into_inner(), ["a/One.uasset", "B/Two.uexp"]);
    assert_eq!(order.entries.len(), 2);
}

#[test]
fn every_file_of_a_plain_archive_is_read_back() {
    let files = [
        plain("A/One.uasset", b"one"),
        plain("A/Two.uexp", b"second"),
        plain("Three.txt", b""),
    ];
    let bytes = v11_pak(MOUNT, SEED, &files, "");
    let reading = v11_reading(&["Three.txt", "A/Two.uexp", "A/One.uasset"]);
    let mut archive = PakArchive::open("plain.pak", &bytes, &reading).unwrap();
    assert_eq!(archive.path(), "plain.pak");
    let inventory = archive.inventory().clone();
    assert_eq!(inventory.footer.version, 11);
    assert_eq!(inventory.archive_size, bytes.len() as u64);
    assert_eq!(inventory.archive_sha256, hex::encode(Sha256::digest(&bytes)));
    assert_eq!(inventory.path_hash_seed, SEED);
    assert_eq!(inventory.packages.loose_entries, ["Three.txt"]);
    for file in &files {
        assert_eq!(archive.read_entry(&file.path).unwrap(), file.bytes);
        assert_eq!(
            archive.logical_sha256(&file.path).unwrap(),
            hex::encode(Sha256::digest(&file.bytes))
        );
        let mut appended = b"x".to_vec();
        assert_eq!(
            archive.read_entry_to(&file.path, &mut appended).unwrap(),
            file.size
        );
        assert_eq!(appended[1..], file.bytes);
    }
    assert!(archive.contains("a/one.UASSET"));
    assert!(!archive.contains("A/Missing.bin"));
    assert!(!archive.contains("../A"));
    assert!(matches!(
        archive.read_entry_limited("A/Two.uexp", 5),
        Err(PakError::EntryTooLarge { size: 6, limit: 5, .. })
    ));
    assert!(matches!(
        archive.entry_size("A/Missing.bin"),
        Err(PakError::MissingEntry(path)) if path == "A/Missing.bin"
    ));
    let inspected = inspect("plain.pak", &bytes, &reading).unwrap();
    assert_eq!(inspected.entries.len(), 3);
    verify_pak_v11("plain.pak", &bytes, &reading, Some(&inspected)).unwrap();
    let mut other = inspect_pak("plain.pak", &bytes, &reading).unwrap();
    other.mount_point.push('x');
    assert!(matches!(
        verify_pak_v11("plain.pak", &bytes, &reading, Some(&other)),
        Err(PakError::Corrupt(message))
            if message == "output inventory differs from the expected inventory"
    ));
}

#[test]
fn a_second_reader_must_agree() {
    let bytes = one_file_pak();
    let mut reading = one_file_reading();
    if let Ok(second) = &mut reading.reader {
        second.mount_point = "../../../Other/".to_owned();
    }
    assert!(matches!(
        PakArchive::open_fast("one.pak", &bytes, &reading),
        Err(PakError::Corrupt(message)) if message.contains("base folder")
    ));
    let reading = v11_reading(&["A/Other.uasset"]);
    assert!(matches!(
        PakArchive::open_fast("one.pak", &bytes, &reading),
        Err(PakError::Corrupt(message)) if message.contains("files inside the Pak")
    ));
    let mut reading = one_file_reading();
    reading.reader = Err(RepakError::Encrypted);
    assert!(matches!(
        PakArchive::open_fast("one.pak", &bytes, &reading),
        Err(PakError::EncryptedIndex)
    ));
}

#[test]
fn damaged_archives_are_refused() {
    let reading = one_file_reading();
    assert!(matches!(
        PakArchive::open("short.pak", &[0; 10], &reading),
        Err(PakError::TooSmall { actual: 10 })
    ));
    let mut bytes = one_file_pak();
    bytes[53] ^= 1;
    assert!(matches!(
        PakArchive::open("damaged.pak", &bytes, &reading),
        Err(PakError::Sha1Mismatch { region, .. }) if region == "file A/One.uasset"
    ));
    let mut bytes = one_file_pak();
    let flag = bytes.len() - PAK_V11_FOOTER_SIZE as usize + 16;
    bytes[flag] = 1;
    assert!(matches!(
        PakArchive::open("encrypted.pak", &bytes, &reading),
        Err(PakError::EncryptedIndex)
    ));
}

#[test]
fn fast_open_reports_scan_progress_and_honors_cancellation() {
    let bytes = one_file_pak();
    let reading = one_file_reading();
    let archive =
        PakArchive::open_fast_with_progress_and_cancel("one.pak", &bytes, &reading, false)
            .unwrap();
    assert_eq!(archive.inventory().archive_size, bytes.len() as u64);
    assert_eq!(
        archive.inventory().archive_sha256,
        hex::encode(Sha256::digest(&bytes))
    );
    assert_eq!(
        archive.inventory().entries[0].payload_sha1,
        hex::encode(Sha1::digest(b"one"))
    );
    let size = archive.inventory().archive_size;
    let work = total_work_bytes(size, &archive.entries, LogicalValidation::Deferred).unwrap();
    let updates = scan_reports(size, work);
    assert!(matches!(
        updates.last(),
        Some(PakOpenProgress::Scanning {
            completed_bytes,
            total_bytes,
        }) if completed_bytes == total_bytes && *total_bytes == bytes.len() as u64
    ));
    assert!(matches!(
        PakArchive::open_fast_with_progress_and_cancel("one.pak", &bytes, &one_file_reading(), true),
        Err(PakError::Cancelled)
    ));
}

#[test]
fn every_repak_input_version_round_trips_through_strict_reader() {
    for version in [
        PakVersion::V0,
        PakVersion::V1,
        PakVersion::V2,
        PakVersion::V3,
        PakVersion::V4,
        PakVersion::V5,
        PakVersion::V6,
        PakVersion::V7,
        PakVersion::V8A,
        PakVersion::V8B,
        PakVersion::V9,
        PakVersion::V10,
        PakVersion::V11,
    ] {
        let bytes = plain_pak(version, "A/One.uasset", b"one");
        let seed = if version.version_major() >= 10 {
            Some(SEED)
        } else {
            None
        };
        let reading = reading_of(version, MOUNT, seed, &["A/One.uasset"], Vec::new());
        let mut archive = PakArchive::open("synthetic.pak", &bytes, &reading)
            .unwrap_or_else(|error| panic!("{version:?} was refused: {}", error.message()));
        assert_eq!(archive.inventory().footer.version, version.version_major());
        assert_eq!(archive.read_entry("A/One.uasset").unwrap(), b"one");
    }
}

#[test]
fn uncompressed_mapping_reuses_the_complete_archive_mapping() {
    let bytes = one_file_pak();
    let reading = one_file_reading();
    let mut archive = PakArchive::open_fast("mapped-input.pak", &bytes, &reading).unwrap();
    let mapped = archive
        .map_entry("A/One.uasset", MAX_IN_MEMORY_ENTRY_BYTES)
        .unwrap();
    assert!(matches!(&mapped, PakEntryData::ArchiveSlice(_)));
    assert_eq!(mapped.as_ref(), b"one");
    let start = mapped.as_ref().as_ptr() as usize - bytes.as_ptr() as usize;
    assert_eq!(&bytes[start..start + 3], b"one");
}

#[test]
fn files_are_handed_out_as_they_are_stored_or_kept() {
    let payload = vec![7_u8; 0x1_0000];
    let (bytes, reading) = compressed_pak("Zlib", &payload);
    let mut archive = PakArchive::open_fast("kept.pak", &bytes, &reading).unwrap();
    let path = "A/Compressed.bin";
    assert!(matches!(
        archive.peek_entry(path, u64::MAX).unwrap(),
        PakEntryData::Owned(_)
    ));
    assert!(matches!(
        archive.map_entry(path, u64::MAX).unwrap(),
        PakEntryData::Shared(_)
    ));
    assert!(matches!(
        archive.peek_entry(path, u64::MAX).unwrap(),
        PakEntryData::Shared(_)
    ));
    let empty = v11_pak(MOUNT, SEED, &[plain("A/Empty.bin", b"")], "");
    let reading = v11_reading(&["A/Empty.bin"]);
    let mut archive = PakArchive::open("empty.pak", &empty, &reading).unwrap();
    assert!(matches!(
        archive.map_entry("A/Empty.bin", u64::MAX).unwrap(),
        PakEntryData::Owned(bytes) if bytes.is_empty()
    ));
}

#[test]
fn writer_reports_byte_progress_for_its_single_final_verification() {
    let payload_len = 10 * 1024 * 1024 + 17_u64;
    let mut gate = ProgressGate::new();
    let mut writing_bytes = Vec::new();
    let mut completed = 0;
    loop {
        if gate.admits_writing(completed, payload_len) {
            writing_bytes.push((completed, payload_len, "A/One.bin"));
        }
        if completed == payload_len {
            break;
        }
        completed = payload_len.min(completed + 64 * 1024);
    }
    assert_eq!(writing_bytes.first(), Some(&(0, payload_len, "A/One.bin")));
    assert_eq!(
        writing_bytes.last(),
        Some(&(payload_len, payload_len, "A/One.bin"))
    );
    assert!(writing_bytes.windows(2).all(|pair| pair[0].0 < pair[1].0));
    assert!(writing_bytes
        .iter()
        .all(|(_, total, _)| *total == payload_len));
    assert!(writing_bytes.len() <= 4);

    let order = write_pak_v11_to(
        MOUNT,
        &vec![PakWriteEntry::new(
            "A/One.bin".to_owned(),
            vec![0x5a; payload_len as usize],
        )],
    )
    .unwrap();
    let files: Vec<Stored> = order
        .entries
        .iter()
        .map(|entry| plain(&entry.path, &entry.data))
        .collect();
    let bytes = v11_pak(&order.mount_point, SEED, &files, "");
    let reading = v11_reading(&["A/One.bin"]);
    let archive = PakArchive::open("written.pak", &bytes, &reading).unwrap();
    let size = archive.inventory().archive_size;
    assert_eq!(size, bytes.len() as u64);
    let work = total_work_bytes(size, &archive.entries, LogicalValidation::StrictDiscard).unwrap();
    let updates: Vec<PakWriteProgress> = scan_reports(size, work)
        .into_iter()
        .map(verification_progress)
        .collect();
    assert!(updates.iter().any(|progress| matches!(
        progress,
        PakWriteProgress::VerificationProgress {
            completed_bytes,
            total_bytes,
            current_path: None,
        } if completed_bytes == total_bytes && *total_bytes == archive.inventory().archive_size
    )));
}

#[test]
fn scans_are_told_of_piece_by_piece() {
    let told = |size: u64| -> Vec<(u64, u64)> {
        scan_reports(size, size + 5)
            .into_iter()
            .map(|event| match event {
                PakOpenProgress::Scanning {
                    completed_bytes,
                    total_bytes,
                } => (completed_bytes, total_bytes),
                PakOpenProgress::Decoding { .. } => panic!("nothing is decoded"),
            })
            .collect()
    };
    let piece = 8 * 1024 * 1024;
    assert_eq!(told(0), [(0, 5)]);
    assert_eq!(told(7), [(0, 12), (7, 12)]);
    assert_eq!(told(piece), [(0, piece + 5), (piece, piece + 5)]);
    assert_eq!(
        told(2 * piece + 1),
        [
            (0, 2 * piece + 6),
            (piece, 2 * piece + 6),
            (2 * piece, 2 * piece + 6),
            (2 * piece + 1, 2 * piece + 6)
        ]
    );
}

#[test]
fn decoding_is_told_with_the_file_that_is_decoded() {
    let event = verification_progress(PakOpenProgress::Decoding {
        completed_bytes: 3,
        total_bytes: 9,
        current_path: Some("A/One.bin".to_owned()),
    });
    assert!(matches!(
        event,
        PakWriteProgress::VerificationProgress {
            completed_bytes: 3,
            total_bytes: 9,
            current_path: Some(path),
        } if path == "A/One.bin"
    ));
}

#[test]
fn the_case_of_ascii_letters_does_not_matter_in_any_path() {
    for path in ["A/One.bin", "데이터/Skill.bin", "ΑΣ/AΣ.bin", "\u{130}/\u{1E9E}/Aß.BIN"] {
        let spelled = path.to_ascii_lowercase();
        assert_eq!(normalized_sort_key(path), path.to_lowercase());
        assert_eq!(normalized_sort_key(&spelled), normalized_sort_key(path));
        let bytes = v11_pak(MOUNT, SEED, &[plain(path, b"one")], "");
        let reading = v11_reading(&[path]);
        let mut archive = PakArchive::open("spelled.pak", &bytes, &reading).unwrap();
        assert_eq!(archive.read_entry(&spelled).unwrap(), b"one");
        assert_eq!(
            archive.logical_sha256(&spelled).unwrap(),
            archive.logical_sha256(path).unwrap()
        );
    }
}

#[test]
fn supported_compressed_entries_are_decoded_and_compared_logically() {
    let payload = (0..420_000_u32)
        .map(|value| (value.wrapping_mul(31) % 251) as u8)
        .collect::<Vec<_>>();
    let file = compressed_file(&payload);
    let cases: Vec<(PakVersion, Vec<u8>, &str)> = vec![
        (PakVersion::V3, legacy_pak(PakVersion::V3, &[], 1, &file), "Zlib"),
        (PakVersion::V5, legacy_pak(PakVersion::V5, &[], 2, &file), "Gzip"),
        (
            PakVersion::V8A,
            legacy_pak(PakVersion::V8A, &["Zlib"], 1, &file),
            "Zlib",
        ),
        (
            PakVersion::V8B,
            legacy_pak(PakVersion::V8B, &["Zstd"], 1, &file),
            "Zstd",
        ),
        (PakVersion::V11, compressed_pak("Zlib", &payload).0, "Zlib"),
        (PakVersion::V11, compressed_pak("Gzip", &payload).0, "Gzip"),
        (PakVersion::V11, compressed_pak("Zstd", &payload).0, "Zstd"),
        (PakVersion::V11, compressed_pak("LZ4", &payload).0, "LZ4"),
    ];
    for (version, bytes, codec) in cases {
        let seed = if version == PakVersion::V11 {
            Some(SEED)
        } else {
            None
        };
        let reading = compressed_reading(version, seed, &payload);
        let mut archive = match PakArchive::open("compressed.pak", &bytes, &reading) {
            Ok(archive) => archive,
            Err(error) => panic!("refused {version:?}/{codec}: {}", error.message()),
        };
        assert!(archive
            .inventory()
            .footer
            .compression_slots
            .iter()
            .any(|slot| slot == codec));
        let entry = &archive.inventory().entries[0];
        assert_eq!(entry.size, payload.len() as u64);
        assert_eq!(entry.sha256, hex::encode(Sha256::digest(&payload)));
        assert!(entry.compressed && entry.sha256_is_logical);
        assert!(entry.payload_sha1_matches);
        let kept = archive.contents[0].as_ref().unwrap().bytes.as_ptr();
        assert_eq!(archive.read_entry("A/Compressed.bin").unwrap(), payload);
        assert_eq!(
            archive
                .map_entry("A/Compressed.bin", MAX_IN_MEMORY_ENTRY_BYTES)
                .unwrap()
                .as_ref(),
            payload
        );
        assert_eq!(archive.contents[0].as_ref().unwrap().bytes.as_ptr(), kept);
    }
}

#[test]
fn ordinary_lz4_blocks_keep_the_standard_repak_path() {
    let payload = (0..420_000_u32)
        .map(|value| (value.wrapping_mul(13) % 251) as u8)
        .collect::<Vec<_>>();
    let (bytes, reading) = compressed_pak("LZ4", &payload);
    let mut archive = PakArchive::open_fast("ordinary-lz4.pak", &bytes, &reading).unwrap();
    let entry = &archive.entries.items[0].1;
    assert!(entry.direct_decode_plan.is_none());
    let path = entry.path.clone();
    assert_eq!(archive.read_entry(&path).unwrap(), payload);
}

fn is_decoded(archive: &PakArchive, path: &str) -> bool {
    archive.entry_decode_info(path).unwrap().decoded_cache_present
}

#[test]
fn fast_open_defers_and_caches_compressed_logical_bytes() {
    let payload = (0..700_000_u32)
        .map(|value| (value.wrapping_mul(17) % 251) as u8)
        .collect::<Vec<_>>();
    let (bytes, reading) = compressed_pak("Zstd", &payload);
    let mut archive =
        PakArchive::open_fast_with_progress_and_cancel("lazy-compressed.pak", &bytes, &reading, false)
            .unwrap();
    assert!(!archive.inventory().entries[0].sha256_is_logical);
    assert!(!is_decoded(&archive, "A/Compressed.bin"));
    assert_eq!(
        archive.entry_size("A/Compressed.bin").unwrap(),
        payload.len() as u64
    );
    assert!(!is_decoded(&archive, "A/Compressed.bin"));
    assert!(matches!(
        archive.logical_sha256_with_threads_and_cancel("A/Compressed.bin", true),
        Err(PakError::Cancelled)
    ));
    assert!(!is_decoded(&archive, "A/Compressed.bin"));
    let expected = hex::encode(Sha256::digest(&payload));
    assert_eq!(archive.logical_sha256("A/Compressed.bin").unwrap(), expected);
    // What was decoded first is what every later reader gets.
    assert!(is_decoded(&archive, "A/Compressed.bin"));
    let kept = archive.contents[0].as_ref().unwrap().bytes.as_ptr();
    assert_eq!(archive.logical_sha256("A/Compressed.bin").unwrap(), expected);
    assert_eq!(archive.read_entry("A/Compressed.bin").unwrap(), payload);
    let mapped = archive
        .map_entry("A/Compressed.bin", MAX_IN_MEMORY_ENTRY_BYTES)
        .unwrap();
    assert!(matches!(&mapped, PakEntryData::Shared(_)));
    assert_eq!(mapped.as_ref(), payload);
    assert_eq!(archive.contents[0].as_ref().unwrap().bytes.as_ptr(), kept);
    assert_eq!(archive.release_decoded_cache(), 1);
}

#[test]
fn letting_go_of_decoded_files_changes_no_read() {
    let payload = (0..9_000_u32)
        .map(|value| (value.wrapping_mul(43) % 251) as u8)
        .collect::<Vec<_>>();
    let (bytes, reading) = compressed_pak("Zstd", &payload);
    let digest = hex::encode(Sha256::digest(&payload));
    let path = "A/Compressed.bin";
    for validation in [
        LogicalValidation::Deferred,
        LogicalValidation::StrictDiscard,
        LogicalValidation::StrictRetain,
    ] {
        let mut archive = PakArchive::open_internal_with_policy(
            "released.pak",
            &bytes,
            validation,
            &reading,
            false,
        )
        .unwrap();
        let retained = validation == LogicalValidation::StrictRetain;
        assert_eq!(is_decoded(&archive, path), retained);
        assert_eq!(archive.peek_sha256(path).unwrap(), digest);
        assert_eq!(archive.peek_entry(path, u64::MAX).unwrap().as_ref(), payload);
        assert_eq!(is_decoded(&archive, path), retained);
        let inventory = archive.inventory().clone();
        for _ in 0..2 {
            assert_eq!(archive.read_entry("a/COMPRESSED.bin").unwrap(), payload);
            assert!(is_decoded(&archive, path));
            assert_eq!(archive.logical_sha256(path).unwrap(), digest);
            assert_eq!(archive.release_decoded_cache(), 1);
            assert_eq!(archive.release_decoded_cache(), 0);
            assert!(!is_decoded(&archive, path));
            assert_eq!(archive.inventory(), &inventory);
        }
        archive.cached_compressed_entry(path, false).unwrap();
        assert!(is_decoded(&archive, path));
        assert!(matches!(
            archive.cached_compressed_entry(path, true),
            Err(PakError::Cancelled)
        ));
    }
}

#[test]
fn empty_compressed_files_are_read_and_hashed_alike() {
    let (bytes, reading) = compressed_pak("Zstd", &[]);
    let mut archive = PakArchive::open_fast("empty.pak", &bytes, &reading).unwrap();
    assert!(archive.map_entry("A/Compressed.bin", 0).unwrap().as_ref().is_empty());
    assert!(!is_decoded(&archive, "A/Compressed.bin"));
    assert!(archive.read_entry("A/Compressed.bin").unwrap().is_empty());
    assert_eq!(
        archive.logical_sha256("A/Compressed.bin").unwrap(),
        hex::encode(Sha256::digest(b""))
    );
}

#[test]
fn strict_discard_validation_hashes_then_releases_each_compressed_entry() {
    let payload = (0..700_000_u32)
        .map(|value| (value.wrapping_mul(19) % 251) as u8)
        .collect::<Vec<_>>();
    let (bytes, reading) = compressed_pak("Zstd", &payload);
    let archive = PakArchive::open_internal_with_policy(
        "strict-discard.pak",
        &bytes,
        LogicalValidation::StrictDiscard,
        &reading,
        false,
    )
    .unwrap();
    assert!(archive.inventory().entries[0].sha256_is_logical);
    assert_eq!(
        archive.inventory().entries[0].sha256,
        hex::encode(Sha256::digest(&payload))
    );
    assert!(archive.contents.iter().all(|content| content.is_none()));
    let info = archive.entry_decode_info("A/Compressed.bin").unwrap();
    assert!(info.compressed);
    assert_eq!(info.logical_size, payload.len() as u64);
    assert!(!info.decoded_cache_present);
    assert!(info.memory_cache_eligible);
}

#[test]
fn public_inspection_checks_compressed_logical_bytes_without_retaining_them() {
    let payload = vec![0x45; 700_000];
    let (bytes, reading) = compressed_pak("Zstd", &payload);
    let inventory = inspect_pak("structural-inspection.pak", &bytes, &reading).unwrap();
    assert!(inventory.entries[0].sha256_is_logical);
    assert_eq!(
        inventory.entries[0].sha256,
        hex::encode(Sha256::digest(&payload))
    );
}

#[test]
fn decoders_must_yield_the_declared_size() {
    let payload = vec![0x45; 7_000];
    let (bytes, mut reading) = compressed_pak("Zstd", &payload);
    reading.outputs = vec![output_of(&payload[1..])];
    assert!(matches!(
        inspect("short.pak", &bytes, &reading),
        Err(PakError::Corrupt(message))
            if message == "decoded file size is 6999 bytes, expected 7000"
    ));
    reading.outputs = vec![output_of(&vec![0; 7_001])];
    assert!(matches!(
        inspect("long.pak", &bytes, &reading),
        Err(PakError::DecompressionFailed { reason, .. })
            if reason == "decoded file is larger than its declared size"
    ));
    let (bytes, mut reading) = compressed_pak("Oodle", &payload);
    reading.oodle_failure = Some("missing library".to_owned());
    assert!(matches!(
        inspect("oodle.pak", &bytes, &reading),
        Err(PakError::OodleUnavailable { reason, .. }) if reason == "missing library"
    ));
}

fn detected_for_plan(version: PakVersion, codec: &str) -> DetectedFooter {
    DetectedFooter {
        version,
        footer_offset: u64::MAX,
        footer: PakFooterInfo {
            version: version.version_major(),
            encrypted_index: false,
            index_offset: 0,
            index_size: 0,
            index_sha1: String::new(),
            compression_slots: vec![codec.to_owned()],
        },
        compression_codecs: vec![Some(codec.to_owned())],
    }
}

fn plan_entry(
    offset: u64,
    stored: u64,
    size: u64,
    start: u64,
    block_size: u32,
) -> LegacyEntryMetadata {
    LegacyEntryMetadata {
        stored_offset: offset,
        compressed_size: stored,
        uncompressed_size: size,
        compression_method: 1,
        timestamp: None,
        payload_sha1: vec![0; 20],
        blocks: vec![CompressionBlock {
            start,
            end: start + stored,
        }],
        flags: 0,
        compression_block_size: block_size,
    }
}

#[test]
fn oversized_contiguous_blocks_build_compact_physical_decode_plans() {
    let physical_entry_offset = 0x20_000_u64;
    let header_size = 73_u64;
    let stored_size = DIRECT_DECODE_STORED_BLOCK_THRESHOLD + 1;
    let logical_size = DIRECT_DECODE_LOGICAL_BLOCK_THRESHOLD + 1;
    let detected = detected_for_plan(PakVersion::V5, "Oodle");
    let relative = plan_entry(
        physical_entry_offset,
        stored_size,
        logical_size,
        header_size,
        logical_size as u32,
    );
    validate_compression_blocks(
        &relative,
        physical_entry_offset,
        header_size,
        detected.version,
        "Large/Relative.bin",
    )
    .unwrap();
    let plan = build_direct_decode_plan(
        &relative,
        physical_entry_offset,
        header_size,
        &detected,
        "Large/Relative.bin",
    )
    .unwrap()
    .unwrap();
    assert_eq!(plan.codec, DirectDecodeCodec::Oodle);
    assert_eq!(plan.blocks.len(), 1);
    assert_eq!(
        plan.blocks[0],
        DirectDecodeBlock {
            stored_start: physical_entry_offset + header_size,
            stored_end: physical_entry_offset + header_size + stored_size,
            output_start: 0,
            output_end: logical_size,
        }
    );

    let detected = detected_for_plan(PakVersion::V4, "Oodle");
    let absolute = plan_entry(
        physical_entry_offset,
        stored_size,
        logical_size,
        physical_entry_offset + header_size,
        logical_size as u32,
    );
    let absolute_plan = build_direct_decode_plan(
        &absolute,
        physical_entry_offset,
        header_size,
        &detected,
        "Large/Absolute.bin",
    )
    .unwrap()
    .unwrap();
    assert_eq!(absolute_plan.blocks, plan.blocks);
}

#[test]
fn direct_decode_plan_thresholds_and_malformed_ranges_are_fail_closed() {
    let detected = detected_for_plan(PakVersion::V5, "LZ4");
    let physical_entry_offset = 4096_u64;
    let header_size = 64_u64;
    let ordinary = plan_entry(
        physical_entry_offset,
        DIRECT_DECODE_STORED_BLOCK_THRESHOLD,
        DIRECT_DECODE_LOGICAL_BLOCK_THRESHOLD,
        header_size,
        DIRECT_DECODE_LOGICAL_BLOCK_THRESHOLD as u32,
    );
    assert!(build_direct_decode_plan(
        &ordinary,
        physical_entry_offset,
        header_size,
        &detected,
        "Small/Boundary.bin",
    )
    .unwrap()
    .is_none());

    let wrong_count = plan_entry(
        physical_entry_offset,
        DIRECT_DECODE_STORED_BLOCK_THRESHOLD,
        DIRECT_DECODE_LOGICAL_BLOCK_THRESHOLD + 1,
        header_size,
        DIRECT_DECODE_LOGICAL_BLOCK_THRESHOLD as u32,
    );
    assert!(matches!(
        build_direct_decode_plan(
            &wrong_count,
            physical_entry_offset,
            header_size,
            &detected,
            "Bad/Count.bin",
        ),
        Err(PakError::Corrupt(message)) if message.contains("expected 2")
    ));

    let overflow = plan_entry(physical_entry_offset, 1, 1, header_size, 1);
    assert!(matches!(
        build_direct_decode_plan(
            &overflow,
            u64::MAX - header_size + 1,
            header_size,
            &detected,
            "Bad/Overflow.bin",
        ),
        Err(PakError::Corrupt(message)) if message.contains("overflow")
    ));
}

fn direct_entry(codec: DirectDecodeCodec, stored: u64, size: u64) -> EntryRecord {
    EntryRecord {
        path: "A/Direct.bin".to_owned(),
        header_offset: 0,
        header_size: 0,
        stored_size: stored,
        size,
        compressed: true,
        oodle_compressed: codec == DirectDecodeCodec::Oodle,
        direct_decode_plan: Some(DirectDecodePlan {
            codec,
            blocks: vec![DirectDecodeBlock {
                stored_start: 0,
                stored_end: stored,
                output_start: 0,
                output_end: size,
            }],
        }),
        payload_sha1: vec![0; 20],
        stored_payload_sha1: vec![0; 20],
        stored_sha256: vec![0; 32],
    }
}

#[test]
fn direct_lz4_decode_writes_straight_to_temporary_mapping() {
    let payload = b"direct mapped LZ4 payload".repeat(128);
    let stored = lz4_flex::block::compress(&payload);
    let entry = direct_entry(
        DirectDecodeCodec::Lz4,
        stored.len() as u64,
        payload.len() as u64,
    );
    let decoded =
        decode_entry_with_progress(&stored, &entry, &output_of(b"ignored"), false).unwrap();
    assert_eq!(decoded.bytes, payload);
    assert_eq!(decoded.sha256, Sha256::digest(&payload).to_vec());

    let short = direct_entry(DirectDecodeCodec::Lz4, 3, payload.len() as u64);
    assert!(matches!(
        decode_entry_with_progress(&stored, &short, &output_of(b""), false),
        Err(PakError::DecompressionFailed { reason, .. }) if reason.starts_with("LZ4 ")
    ));
}

#[test]
fn direct_oodle_decode_takes_the_blocks_of_the_runtime() {
    let entry = direct_entry(DirectDecodeCodec::Oodle, 4, 3);
    let mut output = output_of(b"");
    output.oodle = Ok(vec![Some(b"abc".to_vec())]);
    let decoded = decode_entry_with_progress(&[1, 2, 3, 4], &entry, &output, false).unwrap();
    assert_eq!(decoded.bytes, b"abc");
    output.oodle = Ok(vec![None]);
    assert!(matches!(
        decode_entry_with_progress(&[1, 2, 3, 4], &entry, &output, false),
        Err(PakError::DecompressionFailed { reason, .. })
            if reason == "Oodle returned a negative decoded size"
    ));
    output.oodle = Err("missing".to_owned());
    assert!(matches!(
        decode_entry_with_progress(&[1, 2, 3, 4], &entry, &output, false),
        Err(PakError::OodleUnavailable { reason, .. }) if reason == "missing"
    ));
}

#[test]
fn oodle_is_allowed_and_unknown_compression_slots_are_rejected() {
    let mut detected = read_footer(&one_file_pak()).unwrap();
    detected.compression_codecs[0] = Some("Oodle".to_owned());
    validate_compression_method(&detected, 1, "A/Oodle.bin").unwrap();
    detected.compression_codecs[0] = Some("CustomCodec".to_owned());
    assert!(matches!(
        validate_compression_method(&detected, 1, "A/Unknown.bin"),
        Err(PakError::UnsupportedCompression { method, .. }) if method == "CustomCodec"
    ));
}

#[test]
fn legacy_index_sha1_corruption_is_rejected_before_parsing() {
    let mut bytes = v3_pak(MOUNT, &[plain("A/One.uasset", b"one")]);
    let reading = reading_of(PakVersion::V3, MOUNT, None, &["A/One.uasset"], Vec::new());
    let mut archive = PakArchive::open("v3.pak", &bytes, &reading).unwrap();
    assert_eq!(archive.inventory().footer.version, 3);
    assert_eq!(archive.read_entry("A/One.uasset").unwrap(), b"one");
    let footer_offset = bytes.len() - MIN_PAK_FOOTER_SIZE as usize;
    let index_offset = read_u64(&bytes, footer_offset + 8) as usize;
    bytes[index_offset] ^= 1;
    let error = PakArchive::open("corrupt-v3-index.pak", &bytes, &reading).unwrap_err();
    assert!(matches!(error, PakError::Sha1Mismatch { .. }));
}

const PACKAGE_TAG: [u8; 4] = [0xC1, 0x83, 0x2A, 0x9E];

fn synthetic_uasset() -> Vec<u8> {
    let mut bytes = PACKAGE_TAG.to_vec();
    bytes.extend(b"synthetic-uasset-companion");
    bytes
}

/// A version 3 archive whose `.uexp` holds `stored` while its record is that of
/// `recorded`.
fn stale_v3_pak(uasset: Option<&[u8]>, recorded: &[u8], stored: &[u8]) -> (Vec<u8>, Vec<&'static str>) {
    let mut files = Vec::new();
    let mut names = Vec::new();
    if let Some(uasset) = uasset {
        files.push(plain("DB/Table.uasset", uasset));
        names.push("DB/Table.uasset");
    }
    files.push(plain("DB/Table.uexp", recorded));
    names.push("DB/Table.uexp");
    let mut bytes = v3_pak(MOUNT, &files);
    let at = bytes
        .windows(recorded.len())
        .position(|window| window == recorded)
        .unwrap();
    bytes[at..at + stored.len()].copy_from_slice(stored);
    (bytes, names)
}

fn open_stale(
    uasset: Option<&[u8]>,
    tag: Option<Vec<u8>>,
    recorded: &[u8],
    stored: &[u8],
) -> Result<bool, PakError> {
    let (bytes, names) = stale_v3_pak(uasset, recorded, stored);
    let mut reading = reading_of(PakVersion::V3, MOUNT, None, &names, Vec::new());
    reading.uexp_tags = names
        .iter()
        .map(|name| if name.ends_with(".uexp") { tag.clone() } else { None })
        .collect();
    let mut archive = PakArchive::open("stale.pak", &bytes, &reading)?;
    let entry = archive
        .inventory()
        .entries
        .iter()
        .find(|entry| entry.path.ends_with(".uexp"))
        .unwrap()
        .clone();
    assert_eq!(
        entry.stored_payload_sha1,
        hex::encode(Sha1::digest(recorded))
    );
    assert_eq!(entry.payload_sha1, hex::encode(Sha1::digest(stored)));
    assert_eq!(archive.read_entry("DB/Table.uexp").unwrap(), stored);
    Ok(entry.payload_sha1_matches)
}

#[test]
fn v3_stale_uexp_hash_is_accepted_only_after_binary_asset_validation() {
    let uasset = synthetic_uasset();
    let matches = open_stale(
        Some(&uasset),
        Some(PACKAGE_TAG.to_vec()),
        b"recorded-uexp-bytes",
        b"modified-uexp-bytes",
    )
    .unwrap();
    assert!(!matches);

    let (bytes, names) = stale_v3_pak(
        Some(&uasset),
        b"recorded-uexp-bytes",
        b"modified-uexp-bytes",
    );
    let mut reading = reading_of(PakVersion::V3, MOUNT, None, &names, Vec::new());
    reading.uexp_tags = vec![None, Some(PACKAGE_TAG.to_vec())];
    let mut archive = PakArchive::open("stale-v3-db.pak", &bytes, &reading).unwrap();
    let entries = vec![
        PakWriteEntry::new(
            "DB/Table.uasset".to_owned(),
            archive.read_entry("DB/Table.uasset").unwrap(),
        ),
        PakWriteEntry::new(
            "DB/Table.uexp".to_owned(),
            archive.read_entry("DB/Table.uexp").unwrap(),
        ),
    ];
    let order = write_pak_v11_to(&archive.inventory().mount_point, &entries).unwrap();
    let files: Vec<Stored> = order
        .entries
        .iter()
        .map(|entry| plain(&entry.path, &entry.data))
        .collect();
    let normalized_bytes = v11_pak(&order.mount_point, SEED, &files, "");
    let normalized_reading = v11_reading(&names);
    let mut normalized =
        PakArchive::open("normalized-v11-db.pak", &normalized_bytes, &normalized_reading).unwrap();
    assert_eq!(normalized.inventory().footer.version, 11);
    assert!(normalized
        .inventory()
        .entries
        .iter()
        .all(|entry| entry.payload_sha1_matches));
    assert_eq!(
        normalized.read_entry("DB/Table.uexp").unwrap(),
        b"modified-uexp-bytes"
    );
}

#[test]
fn v3_stale_hash_on_uasset_remains_fatal() {
    let uasset = synthetic_uasset();
    let mut bytes = v3_pak(
        MOUNT,
        &[
            plain("DB/Table.uasset", &uasset),
            plain("DB/Table.uexp", b"recorded"),
        ],
    );
    let at = bytes
        .windows(uasset.len())
        .position(|window| window == uasset)
        .unwrap();
    bytes[at + uasset.len() - 1] ^= 1;
    let reading = reading_of(
        PakVersion::V3,
        MOUNT,
        None,
        &["DB/Table.uasset", "DB/Table.uexp"],
        Vec::new(),
    );
    assert!(matches!(
        PakArchive::open("stale-v3-uasset.pak", &bytes, &reading),
        Err(PakError::Sha1Mismatch { .. })
    ));
    let mut wrong = synthetic_uasset();
    wrong[..4].copy_from_slice(&[0x11, 0x22, 0x33, 0x44]);
    assert!(matches!(
        open_stale(
            Some(&wrong),
            Some(vec![0x11, 0x22, 0x33, 0x44]),
            b"recorded-uexp-bytes",
            b"modified-uexp-bytes",
        ),
        Err(PakError::Sha1Mismatch { .. })
    ));
}

#[test]
fn v3_stale_uexp_hash_requires_parseable_binary_asset() {
    let uasset = synthetic_uasset();
    assert!(matches!(
        open_stale(
            Some(&uasset),
            None,
            b"recorded-uexp-bytes",
            b"modified-uexp-bytes",
        ),
        Err(PakError::Sha1Mismatch { .. })
    ));
}

#[test]
fn v3_stale_uexp_hash_requires_valid_same_basename_companion() {
    assert!(matches!(
        open_stale(
            None,
            Some(PACKAGE_TAG.to_vec()),
            b"recorded-uexp-bytes",
            b"modified-uexp-bytes",
        ),
        Err(PakError::Sha1Mismatch { .. })
    ));
    let mut wrong_tag = synthetic_uasset();
    wrong_tag[..4].copy_from_slice(&[0x11, 0x22, 0x33, 0x44]);
    assert!(matches!(
        open_stale(
            Some(&wrong_tag),
            Some(PACKAGE_TAG.to_vec()),
            b"recorded-uexp-bytes",
            b"modified-uexp-bytes",
        ),
        Err(PakError::Sha1Mismatch { .. })
    ));
}

#[test]
fn path_hash_matches_pinned_repak_vectors() {
    assert_eq!(fnv64_path("A/One.uasset", 0), 0x9b16_e7a9_5f63_9c4c);
    assert_eq!(
        fnv64_path("Local/DataBase/EnemyID.uexp", 0),
        0xefbc_da6f_5fe6_aa74
    );
    assert_eq!(
        fnv64_path("A/One.uasset", 0x1234_5678),
        0x6af8_5c63_e04f_8944
    );
    assert_eq!(fnv64_path("A/One.uasset", 0), fnv64_path("a/one.UASSET", 0));
}

struct IndexLocations {
    primary: std::ops::Range<usize>,
    path_hash: std::ops::Range<usize>,
    seed_offset: usize,
    path_hash_sha1_offset: usize,
    primary_sha1_offset: usize,
}

fn locate_indexes(archive: &[u8]) -> IndexLocations {
    let footer_offset = archive.len() - PAK_V11_FOOTER_SIZE as usize;
    let index_offset = read_u64(archive, footer_offset + 25) as usize;
    let index_size = read_u64(archive, footer_offset + 33) as usize;
    let primary = index_offset..index_offset + index_size;
    let mut cursor = SliceReader::new(&archive[primary.clone()], "test primary index");
    cursor.read_fstring().unwrap();
    cursor.read_u32().unwrap();
    let seed_offset = index_offset + cursor.position;
    cursor.read_u64().unwrap();
    assert_eq!(cursor.read_u32().unwrap(), 1);
    let path_hash_offset = cursor.read_u64().unwrap() as usize;
    let path_hash_size = cursor.read_u64().unwrap() as usize;
    let path_hash_sha1_offset = index_offset + cursor.position;
    cursor.read_array_20().unwrap();
    IndexLocations {
        primary,
        path_hash: path_hash_offset..path_hash_offset + path_hash_size,
        seed_offset,
        path_hash_sha1_offset,
        primary_sha1_offset: footer_offset + 41,
    }
}

fn refresh_hashes(archive: &mut [u8], locations: &IndexLocations, path_hash_changed: bool) {
    if path_hash_changed {
        let path_hash_sha1 = Sha1::digest(&archive[locations.path_hash.clone()]).to_vec();
        archive[locations.path_hash_sha1_offset..locations.path_hash_sha1_offset + 20]
            .copy_from_slice(&path_hash_sha1);
    }
    let primary_sha1 = Sha1::digest(&archive[locations.primary.clone()]).to_vec();
    archive[locations.primary_sha1_offset..locations.primary_sha1_offset + 20]
        .copy_from_slice(&primary_sha1);
}

fn read_u64(bytes: &[u8], offset: usize) -> u64 {
    u64::from_le_bytes(bytes[offset..offset + 8].try_into().unwrap())
}

fn assert_path_hash_archive_rejected(archive: Vec<u8>) {
    let error = match PakArchive::open("corrupt-path-hash.pak", &archive, &one_file_reading()) {
        Ok(_) => panic!("archive with an invalid path hash was accepted"),
        Err(error) => error,
    };
    assert!(
        matches!(&error, PakError::Corrupt(message) if message.contains("path check")),
        "unexpected error: {error:?}"
    );
}

#[test]
fn archive_rejects_path_hash_value_even_when_index_sha1s_are_valid() {
    let mut archive = one_file_pak();
    let locations = locate_indexes(&archive);
    let hash_offset = locations.path_hash.start + 4;
    let corrupted = read_u64(&archive, hash_offset) ^ 1;
    archive[hash_offset..hash_offset + 8].copy_from_slice(&corrupted.to_le_bytes());
    refresh_hashes(&mut archive, &locations, true);

    assert_path_hash_archive_rejected(archive);
}

#[test]
fn archive_rejects_changed_seed_even_when_primary_sha1_is_valid() {
    let mut archive = one_file_pak();
    let locations = locate_indexes(&archive);
    let corrupted = read_u64(&archive, locations.seed_offset).wrapping_add(1);
    archive[locations.seed_offset..locations.seed_offset + 8]
        .copy_from_slice(&corrupted.to_le_bytes());
    refresh_hashes(&mut archive, &locations, false);

    assert_path_hash_archive_rejected(archive);
}

#[test]
fn messages_name_what_is_wrong() {
    assert_eq!(
        PakError::MissingEntry("A/B.bin".to_owned()).message(),
        "the Pak does not contain this file: A/B.bin"
    );
    assert!(PakError::Cancelled.message().contains("cancel"));
}

#[test]
fn compressed_files_are_decoded_when_they_are_first_asked_for() {
    let payload = vec![0x42; 2_500];
    let (bytes, reading) = compressed_pak("Zstd", &payload);
    let path = "A/Compressed.bin";
    let mut archive = PakArchive::open_fast("lazy.pak", &bytes, &reading).unwrap();
    assert!(!is_decoded(&archive, path));
    assert!(matches!(
        archive.read_entry_limited_with_threads_and_cancel(path, 10, true),
        Err(PakError::EntryTooLarge { size: 2_500, limit: 10, .. })
    ));
    assert!(matches!(
        archive.read_entry_limited_with_threads_and_cancel(path, 2_500, true),
        Err(PakError::Cancelled)
    ));
    assert!(matches!(
        archive.map_entry_with_threads_and_cancel(path, 10, true),
        Err(PakError::Cancelled)
    ));
    assert!(!is_decoded(&archive, path));
    let mut written = b"before".to_vec();
    assert_eq!(
        archive
            .read_entry_to_with_threads_and_cancel(path, &mut written, false)
            .unwrap(),
        2_500
    );
    assert_eq!(written[..6], *b"before");
    assert_eq!(written[6..], payload[..]);
    assert!(is_decoded(&archive, path));

    let (bytes, mut reading) = compressed_pak("Zstd", &payload);
    reading.outputs = vec![DecoderOutput {
        reader: Err(RepakError::DecompressionFailed("Zstd".to_owned())),
        oodle: Err(String::new()),
    }];
    let mut archive = PakArchive::open_fast("broken.pak", &bytes, &reading).unwrap();
    assert!(matches!(
        archive.logical_sha256(path),
        Err(PakError::DecompressionFailed { .. })
    ));
    assert!(matches!(
        archive.read_entry(path),
        Err(PakError::DecompressionFailed { .. })
    ));
    assert!(!is_decoded(&archive, path));
}
