//! The room that an output takes.
use std::collections::{BTreeMap, BTreeSet};

use pak_merger::merge::error::MergeError;
use pak_merger::merge::estimate::{
    checked_logical_entry_bytes, ensure_destination_copy_space, ensure_output_disk_space,
    estimated_output_additional_bytes_with_bounds,
    estimated_output_additional_bytes_with_bounds_and_allocation, oodle_output_block_layout,
    pak_string_serialized_size, required_oodle_block_sizes, round_up_estimate, BlockLayout,
};
use pak_merger::pak::decode::RepakError;
use pak_merger::pak::error::PakError;
use pak_merger::pak::write::OutputCompression;

const COMPRESSION_BLOCK_SIZE: u64 = 126_976;
const MAX_BLOCKS: u64 = 65_535;

/// The layout that the archive writer picks for a file.
fn layout_of(size: u64) -> BlockLayout {
    let block = COMPRESSION_BLOCK_SIZE.max(size.div_ceil(MAX_BLOCKS));
    match u32::try_from(block) {
        Ok(block) => Ok((block, size.div_ceil(u64::from(block)) as u32)),
        Err(_) => Err(RepakError::Other(format!(
            "file of {size} bytes needs blocks larger than u32"
        ))),
    }
}

fn layouts_of(entries: &Vec<(String, u64)>) -> Vec<BlockLayout> {
    entries.iter().map(|entry| layout_of(entry.1)).collect()
}

fn bounds_of(sizes: BTreeSet<u64>, extra: u64) -> BTreeMap<u64, u64> {
    sizes.into_iter().map(|size| (size, size + extra)).collect()
}

#[test]
fn output_space_estimate_uses_only_the_selected_output_and_has_no_fixed_headroom() {
    let logical_bytes = 4_336_986_270_u64;
    let entries = vec![("Local/DataBase/Large.uexp".to_owned(), logical_bytes)];
    let uncompressed = estimated_output_additional_bytes_with_bounds(
        "../../../Game/Content/",
        &entries,
        OutputCompression::Uncompressed,
        &Vec::new(),
        &BTreeMap::new(),
    )
    .unwrap();

    assert!(uncompressed > logical_bytes);
    assert!(uncompressed < logical_bytes + 64 * 1024);
    // Three input Paks may each contain this same complete database. The
    // preflight is based on the one selected output entry, not 3x input.
    assert!(uncompressed < logical_bytes * 2);
}

#[test]
fn oodle_output_space_estimate_covers_codec_bound_and_strict_decode_once() {
    let logical_bytes = 4_336_986_270_u64;
    let entries = vec![("Local/DataBase/Large.uexp".to_owned(), logical_bytes)];
    let layouts = layouts_of(&entries);
    let raw_sizes = required_oodle_block_sizes(&entries, &layouts).unwrap();
    let bounds = bounds_of(raw_sizes, 256);
    let oodle = estimated_output_additional_bytes_with_bounds(
        "../../../Game/Content/",
        &entries,
        OutputCompression::Oodle,
        &layouts,
        &bounds,
    )
    .unwrap();

    assert!(oodle > logical_bytes * 2);
    assert!(oodle < logical_bytes * 2 + 64 * 1024 * 1024);
}

#[test]
fn oodle_output_space_estimate_includes_real_temp_file_allocation_rounding() {
    let entries = vec![
        ("A.bin".to_owned(), 1_u64),
        ("B.bin".to_owned(), 4_097_u64),
        ("Empty.bin".to_owned(), 0_u64),
    ];
    let layouts = layouts_of(&entries);
    let bounds = bounds_of(required_oodle_block_sizes(&entries, &layouts).unwrap(), 64);
    let byte_exact = estimated_output_additional_bytes_with_bounds_and_allocation(
        "../../../Game/Content/",
        &entries,
        OutputCompression::Oodle,
        &layouts,
        &bounds,
        1,
        0,
    )
    .unwrap();
    let clustered = estimated_output_additional_bytes_with_bounds_and_allocation(
        "../../../Game/Content/",
        &entries,
        OutputCompression::Oodle,
        &layouts,
        &bounds,
        4_096,
        4_096,
    )
    .unwrap();

    // Two non-empty decoded temporary files need 4 KiB metadata each; their
    // data allocations round from 1 to 4 KiB and from 4097 to 8 KiB. The Pak
    // file itself is also rounded to its final allocation unit.
    assert!(clustered >= byte_exact + 4_096 * 4);
}

#[test]
fn output_space_estimate_derives_index_overhead_from_final_paths() {
    let short = vec![("A.bin".to_owned(), 1_u64)];
    let deep = vec![(
        "Local/DataBase/GameText/Localize/KO-KR/SystemText/A.bin".to_owned(),
        1_u64,
    )];
    let short_bytes = estimated_output_additional_bytes_with_bounds(
        "../../../Game/Content/",
        &short,
        OutputCompression::Uncompressed,
        &Vec::new(),
        &BTreeMap::new(),
    )
    .unwrap();
    let deep_bytes = estimated_output_additional_bytes_with_bounds(
        "../../../Game/Content/Local/DataBase/",
        &deep,
        OutputCompression::Uncompressed,
        &Vec::new(),
        &BTreeMap::new(),
    )
    .unwrap();

    assert!(deep_bytes > short_bytes);
}

#[test]
fn output_space_estimate_rejects_sum_envelope_and_layout_overflow() {
    assert!(matches!(
        checked_logical_entry_bytes(&vec![u64::MAX, 1]),
        Err(MergeError::InvalidRequest(message))
            if message == "disk-space estimate overflow"
    ));
    let impossible = vec![("Huge.bin".to_owned(), u64::MAX)];
    assert!(matches!(
        estimated_output_additional_bytes_with_bounds(
            "../../../Game/Content/",
            &impossible,
            OutputCompression::Uncompressed,
            &Vec::new(),
            &BTreeMap::new(),
        ),
        Err(MergeError::InvalidRequest(message))
            if message == "disk-space estimate overflow"
    ));
    let twenty_gib = vec![("Huge.bin".to_owned(), 20_u64 * 1024 * 1024 * 1024)];
    let layouts = layouts_of(&twenty_gib);
    let sizes = required_oodle_block_sizes(&twenty_gib, &layouts).unwrap();
    let (block_size, block_count) = oodle_output_block_layout(&layouts[0]).unwrap();
    assert!(block_size > COMPRESSION_BLOCK_SIZE);
    assert!(block_count <= MAX_BLOCKS);
    assert!(sizes.contains(&block_size));
    let bounds = bounds_of(sizes, 256);
    let estimate = estimated_output_additional_bytes_with_bounds(
        "../../../Game/Content/",
        &twenty_gib,
        OutputCompression::Oodle,
        &layouts,
        &bounds,
    )
    .unwrap();
    assert!(estimate > twenty_gib[0].1 * 2);

    let unrepresentable = vec![("Huge.bin".to_owned(), u64::MAX)];
    assert!(matches!(
        required_oodle_block_sizes(&unrepresentable, &layouts_of(&unrepresentable)),
        Err(MergeError::Pak(PakError::Repak(message)))
            if message.contains("larger than u32")
    ));
}

#[test]
fn sizes_round_up_to_whole_units() {
    assert_eq!(round_up_estimate(0, 4096).unwrap(), 0);
    assert_eq!(round_up_estimate(1, 4096).unwrap(), 4096);
    assert_eq!(round_up_estimate(4096, 4096).unwrap(), 4096);
    assert_eq!(round_up_estimate(4097, 4096).unwrap(), 8192);
    assert!(round_up_estimate(u64::MAX, 4096).is_err());
}

#[test]
fn wide_names_take_two_bytes_per_unit() {
    assert_eq!(pak_string_serialized_size("A.bin").unwrap(), 4 + 6);
    assert_eq!(pak_string_serialized_size("\u{d55c}.bin").unwrap(), 4 + 2 * 6);
}

#[test]
fn folders_without_room_are_refused() {
    let entries = vec![("A.bin".to_owned(), 1_u64)];
    let error = ensure_output_disk_space(
        "../../../Game/Content/",
        &entries,
        OutputCompression::Uncompressed,
        &Vec::new(),
        &BTreeMap::new(),
        0,
        10,
    )
    .unwrap_err();
    match error {
        MergeError::InvalidRequest(message) => assert!(message.starts_with(
            "there is not enough free space in the temporary work folder after preparing merged files: 10 bytes available, "
        )),
        other => panic!("unexpected error: {other:?}"),
    }
    assert!(ensure_output_disk_space(
        "../../../Game/Content/",
        &entries,
        OutputCompression::Uncompressed,
        &Vec::new(),
        &BTreeMap::new(),
        4096,
        1 << 20,
    )
    .is_ok());
    assert!(ensure_destination_copy_space(4097, 4096, 8192).is_ok());
    match ensure_destination_copy_space(4097, 4096, 8191) {
        Err(MergeError::InvalidRequest(message)) => assert_eq!(
            message,
            "there is not enough free space in the save folder: 8191 bytes available, 8192 bytes required"
        ),
        other => panic!("unexpected outcome: {other:?}"),
    }
}
