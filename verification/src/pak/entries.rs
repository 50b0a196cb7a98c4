//! The stored files that the file list of a Pak names.
use std::collections::BTreeMap;
use std::collections::BTreeSet;
use vstd::prelude::*;
use vstd::slice::slice_to_vec;

use super::blocks::{
    blocks_fault, build_direct_decode_plan, compression_method_name, direct_plan_of, header_size_of,
    legacy_entry_at, method_fault, method_name, parse_legacy_entry, plan_view,
    serialized_entry_header_size, validate_compression_blocks, validate_compression_method,
    CompressionBlock, DirectDecodePlan, DirectDecodePlanView, LegacyEntryMetadata, LegacyEntryView,
    DIRECT_DECODE_LOGICAL_BLOCK_THRESHOLD, DIRECT_DECODE_STORED_BLOCK_THRESHOLD,
};
use super::error::{corrupt, seen, unsupported, PakError, PakErrorView, Result};
use super::footer::{
    check, decode_sha1, decoded_sha1, ensure_regions_disjoint, overlap_fault, read_region_verified,
    region_fault, validate_region, verified_region, DetectedFooter, DetectedFooterView, IndexRegion,
    IndexRegionView,
};
use super::index::{
    disagreement, encoded_entry, full_directory, header_disagrees, header_record, local_header,
    located, parse_encoded_entry, parse_full_directory_index, parse_path_hash_index,
    path_hash_fault, path_hashes, read_header_record, validate_local_entry_header,
    validate_path_hashes, Located, MAX_ENTRY_COUNT,
};
use super::paths::{
    normal_mount, normal_path, normalize_entry_path, normalize_mount_point, normalized_sort_key,
    sort_key_of,
};
use super::reader::{
    bytes_at, finished, fstring_at, took, u32_at, u64_at, SliceReader, Step, MAX_INDEX_BYTES,
};
use crate::digest::same_bytes;
use crate::ordered::{get, put, OrderedMap};
use crate::text::{cat2, cat3, cat4, cat5, dec, decimal, same_text};

verus! {

pub const MAX_COMBINED_INDEX_BYTES: u64 = 2_147_483_648;

/// A stored file of an archive.
#[derive(Debug)]
pub struct EntryRecord {
    pub path: String,
    pub header_offset: u64,
    pub header_size: u64,
    /// How many bytes are stored behind the header.
    pub stored_size: u64,
    /// How many bytes the file has once decompressed.
    pub size: u64,
    pub compressed: bool,
    pub oodle_compressed: bool,
    /// The plan for blocks that are too large to be decoded in memory.
    pub direct_decode_plan: Option<DirectDecodePlan>,
    /// The digest that the stored bytes are expected to have.
    pub payload_sha1: Vec<u8>,
    /// The digest that the archive records.
    pub stored_payload_sha1: Vec<u8>,
    /// The SHA-256 digest of the stored bytes, once they were hashed.
    pub stored_sha256: Vec<u8>,
}

#[verifier::ext_equal]
pub struct EntryRecordView {
    pub path: Seq<char>,
    pub header_offset: u64,
    pub header_size: u64,
    pub stored_size: u64,
    pub size: u64,
    pub compressed: bool,
    pub oodle_compressed: bool,
    pub direct_decode_plan: Option<DirectDecodePlanView>,
    pub payload_sha1: Seq<u8>,
    pub stored_payload_sha1: Seq<u8>,
    pub stored_sha256: Seq<u8>,
}

impl View for EntryRecord {
    type V = EntryRecordView;

    open spec fn view(&self) -> EntryRecordView {
        EntryRecordView {
            path: self.path@,
            header_offset: self.header_offset,
            header_size: self.header_size,
            stored_size: self.stored_size,
            size: self.size,
            compressed: self.compressed,
            oodle_compressed: self.oodle_compressed,
            direct_decode_plan: plan_view(self.direct_decode_plan),
            payload_sha1: self.payload_sha1@,
            stored_payload_sha1: self.stored_payload_sha1@,
            stored_sha256: self.stored_sha256@,
        }
    }
}

/// What the file list of an archive says.
#[derive(Debug)]
pub struct ParsedIndexes {
    pub mount_point: String,
    pub path_hash_seed: u64,
    pub entries: OrderedMap<EntryRecord>,
}

/// The stored files under the keys of their paths.
pub type Entries = Seq<(Seq<char>, EntryRecordView)>;

#[verifier::ext_equal]
pub struct ParsedIndexesView {
    pub mount_point: Seq<char>,
    pub path_hash_seed: u64,
    pub entries: Entries,
}

impl View for ParsedIndexes {
    type V = ParsedIndexesView;

    open spec fn view(&self) -> ParsedIndexesView {
        ParsedIndexesView {
            mount_point: self.mount_point@,
            path_hash_seed: self.path_hash_seed,
            entries: self.entries@,
        }
    }
}

/// The bytes that a stored file occupies, header included.
#[derive(Debug)]
pub struct Occupied {
    pub start: u64,
    pub end: u64,
    pub path: String,
}

#[verifier::ext_equal]
pub struct OccupiedView {
    pub start: u64,
    pub end: u64,
    pub path: Seq<char>,
}

impl View for Occupied {
    type V = OccupiedView;

    open spec fn view(&self) -> OccupiedView {
        OccupiedView { start: self.start, end: self.end, path: self.path@ }
    }
}

pub open spec fn occupied_views(list: Seq<Occupied>) -> Seq<OccupiedView> {
    list.map_values(|item: Occupied| item@)
}

/// The ranges with one more, behind those that start no later.
pub open spec fn placed(list: Seq<OccupiedView>, item: OccupiedView) -> Seq<OccupiedView>
    decreases list.len(),
{
    if list.len() == 0 || list.last().start <= item.start {
        list.push(item)
    } else {
        placed(list.drop_last(), item).push(list.last())
    }
}

/// The first two neighbours of which the second starts before the first ends.
pub open spec fn ranges_fault(list: Seq<OccupiedView>) -> Option<PakErrorView>
    decreases list.len(),
{
    if list.len() < 2 {
        None
    } else if list[1].start < list[0].end {
        Some(
            PakErrorView::Corrupt(
                "file data ranges overlap: "@ + list[0].path + " and "@ + list[1].path,
            ),
        )
    } else {
        ranges_fault(list.skip(1))
    }
}

pub proof fn placed_behind(list: Seq<OccupiedView>, item: OccupiedView, at: int)
    requires
        0 <= at <= list.len(),
        forall|i: int| at <= i < list.len() ==> #[trigger] list[i].start > item.start,
        at > 0 ==> list[at - 1].start <= item.start,
    ensures
        placed(list, item) == list.insert(at, item),
    decreases list.len(),
{
    if at < list.len() {
        assert(list.last() == list[list.len() - 1]);
        placed_behind(list.drop_last(), item, at);
        assert(list.drop_last().insert(at, item).push(list.last()) =~= list.insert(at, item));
    } else {
        assert(list.insert(at, item) =~= list.push(item));
    }
}

fn place(list: &mut Vec<Occupied>, item: Occupied)
    ensures
        occupied_views(final(list)@) == placed(occupied_views(old(list)@), item@),
{
    let mut at: usize = list.len();
    while at > 0 && list[at - 1].start > item.start
        invariant
            at <= list@.len(),
            list@ == old(list)@,
            forall|i: int| at <= i < list@.len() ==> #[trigger] list@[i].start > item.start,
        decreases at,
    {
        at -= 1;
    }
    proof {
        let before = occupied_views(list@);
        assert forall|i: int| at <= i < before.len() implies #[trigger] before[i].start > item.start by {
            assert(list@[i].start > item.start);
        }
        if at > 0 {
            assert(before[at - 1] == list@[at - 1]@);
        }
        placed_behind(before, item@, at as int);
        assert(occupied_views(list@.insert(at as int, item)) =~= before.insert(at as int, item@));
    }
    list.insert(at, item);
}

fn check_ranges(list: &Vec<Occupied>) -> (result: Result<()>)
    ensures
        seen(result) == check(ranges_fault(occupied_views(list@))),
{
    let mut at: usize = 0;
    let ghost all = occupied_views(list@);
    proof {
        assert(all.skip(0) == all);
    }
    while list.len() - at >= 2
        invariant
            at <= list@.len(),
            all == occupied_views(list@),
            ranges_fault(all) == ranges_fault(all.skip(at as int)),
        decreases list.len() - at,
    {
        proof {
            assert(all.skip(at as int)[0] == list@[at as int]@);
            assert(all.skip(at as int)[1] == list@[at as int + 1]@);
            assert(all.skip(at as int).skip(1) == all.skip(at as int + 1));
        }
        if list[at + 1].start < list[at].end {
            return Err(
                PakError::Corrupt(
                    cat4(
                        "file data ranges overlap: ",
                        list[at].path.as_str(),
                        " and ",
                        list[at + 1].path.as_str(),
                    ),
                ),
            );
        }
        at += 1;
    }
    Ok(())
}

/// The record of a file whose metadata was found to be sound.
pub open spec fn record_of(
    path: Seq<char>,
    header_offset: u64,
    header_size: u64,
    stored_size: u64,
    size: u64,
    method: u32,
    codecs: Seq<Option<Seq<char>>>,
    plan: Option<DirectDecodePlanView>,
    payload_sha1: Seq<u8>,
) -> EntryRecordView {
    EntryRecordView {
        path,
        header_offset,
        header_size,
        stored_size,
        size,
        compressed: method != 0,
        oodle_compressed: method_name(codecs, method) == Some("Oodle"@),
        direct_decode_plan: plan,
        payload_sha1,
        stored_payload_sha1: payload_sha1,
        stored_sha256: Seq::new(32, |i: int| 0u8),
    }
}

fn zeroed_digest() -> (result: Vec<u8>)
    ensures
        result@ == Seq::new(32, |i: int| 0u8),
{
    let result: Vec<u8> = vec![0u8; 32];
    assert(result@ =~= Seq::new(32, |i: int| 0u8));
    result
}

fn copy_bytes(bytes: &Vec<u8>) -> (result: Vec<u8>)
    ensures
        result@ == bytes@,
{
    slice_to_vec(bytes.as_slice())
}

fn make_record(
    path: String,
    header_offset: u64,
    header_size: u64,
    stored_size: u64,
    size: u64,
    method: u32,
    detected: &DetectedFooter,
    plan: Option<DirectDecodePlan>,
    payload_sha1: Vec<u8>,
) -> (result: EntryRecord)
    ensures
        result@ == record_of(
            path@,
            header_offset,
            header_size,
            stored_size,
            size,
            method,
            detected@.compression_codecs,
            plan_view(plan),
            payload_sha1@,
        ),
{
    let oodle_compressed = match compression_method_name(detected, method) {
        Some(name) => same_text(name.as_str(), "Oodle"),
        None => false,
    };
    EntryRecord {
        path,
        header_offset,
        header_size,
        stored_size,
        size,
        compressed: method != 0,
        oodle_compressed,
        direct_decode_plan: plan,
        stored_payload_sha1: copy_bytes(&payload_sha1),
        payload_sha1,
        stored_sha256: zeroed_digest(),
    }
}

/// The end of a stored file, which must lie before the file list.
pub open spec fn data_end_of(offset: u64, header_size: u64, stored_size: u64, limit: u64, path: Seq<char>) -> std::result::Result<
    u64,
    PakErrorView,
> {
    if offset + header_size + stored_size > u64::MAX {
        corrupt("file data range overflow"@)
    } else if offset + header_size + stored_size > limit {
        corrupt("file "@ + path + " extends into the Pak file list"@)
    } else {
        Ok((offset + header_size + stored_size) as u64)
    }
}

fn data_end(offset: u64, header_size: u64, stored_size: u64, limit: u64, path: &str) -> (result: Result<
    u64,
>)
    ensures
        seen(result) == data_end_of(offset, header_size, stored_size, limit, path@),
{
    let end: u64 = match offset.checked_add(header_size) {
        Some(start) => match start.checked_add(stored_size) {
            Some(end) => end,
            None => {
                return Err(PakError::Corrupt("file data range overflow".to_owned()));
            },
        },
        None => {
            return Err(PakError::Corrupt("file data range overflow".to_owned()));
        },
    };
    if end > limit {
        return Err(
            PakError::Corrupt(cat3("file ", path, " extends into the Pak file list")),
        );
    }
    Ok(end)
}

/// What is known of an archive while the files of its list are read.
#[verifier::ext_equal]
pub struct EntriesState {
    pub entries: Entries,
    pub occupied: Seq<OccupiedView>,
}

/// The state with one more file; a path that is there already, letter case
/// aside, is refused.
pub open spec fn with_record(state: EntriesState, record: EntryRecordView, end: u64) -> std::result::Result<
    EntriesState,
    PakErrorView,
> {
    let key = sort_key_of(record.path);
    match get(state.entries, key) {
        Some(first) => Err(
            PakErrorView::DuplicatePath { first: first.path, second: record.path },
        ),
        None => Ok(
            EntriesState {
                entries: put(state.entries, key, record),
                occupied: placed(
                    state.occupied,
                    OccupiedView { start: record.header_offset, end, path: record.path },
                ),
            },
        ),
    }
}

fn add_record(
    entries: &mut OrderedMap<EntryRecord>,
    occupied: &mut Vec<Occupied>,
    record: EntryRecord,
    end: u64,
) -> (result: Result<()>)
    requires
        old(entries).well_formed(),
    ensures
        final(entries).well_formed(),
        match (
            result,
            with_record(
                EntriesState { entries: old(entries)@, occupied: occupied_views(old(occupied)@) },
                record@,
                end,
            ),
        ) {
            (Ok(_), Ok(state)) => state == (EntriesState {
                entries: final(entries)@,
                occupied: occupied_views(final(occupied)@),
            }),
            (Err(error), Err(wanted)) => error@ == wanted,
            _ => false,
        },
{
    let key = normalized_sort_key(record.path.as_str());
    match entries.find(key.as_str()) {
        Some(at) => {
            return Err(
                PakError::DuplicatePath {
                    first: entries.items[at].1.path.clone(),
                    second: record.path,
                },
            );
        },
        None => {},
    }
    place(
        occupied,
        Occupied { start: record.header_offset, end, path: record.path.clone() },
    );
    entries.insert(key, record);
    Ok(())
}

/// The files under their keys, once no two of them share a byte.
pub open spec fn settled(state: EntriesState) -> std::result::Result<Entries, PakErrorView> {
    match ranges_fault(state.occupied) {
        Some(error) => Err(error),
        None => Ok(state.entries),
    }
}

/// The state with the file of one encoded record.
#[verifier::opaque]
pub open spec fn with_encoded(
    state: EntriesState,
    archive: Seq<u8>,
    detected: DetectedFooterView,
    records: Seq<u8>,
    path: Seq<char>,
    offset: usize,
) -> std::result::Result<EntriesState, PakErrorView> {
    let version = detected.version;
    let codecs = detected.compression_codecs;
    match encoded_entry(records, offset as int, path) {
        Err(error) => Err(error),
        Ok(encoded) => if encoded.encrypted {
            Err(PakErrorView::EncryptedEntry { path })
        } else {
            match method_fault(codecs, encoded.compression_method, path) {
                Some(error) => Err(error),
                None => match header_size_of(
                    version,
                    encoded.compression_method != 0,
                    encoded.block_sizes.len() as u32,
                ) {
                    Err(error) => Err(error),
                    Ok(header_size) => match data_end_of(
                        encoded.header_offset,
                        header_size,
                        encoded.compressed_size,
                        detected.footer.index_offset,
                        path,
                    ) {
                        Err(error) => Err(error),
                        Ok(end) => match local_header(
                            archive,
                            version,
                            codecs,
                            path,
                            encoded,
                            header_size,
                        ) {
                            Err(error) => Err(error),
                            Ok(local) => match direct_plan_of(
                                local,
                                encoded.header_offset,
                                header_size,
                                version,
                                codecs,
                                path,
                                DIRECT_DECODE_LOGICAL_BLOCK_THRESHOLD,
                                DIRECT_DECODE_STORED_BLOCK_THRESHOLD,
                            ) {
                                Err(error) => Err(error),
                                Ok(plan) => with_record(
                                    state,
                                    record_of(
                                        path,
                                        encoded.header_offset,
                                        header_size,
                                        encoded.compressed_size,
                                        encoded.uncompressed_size,
                                        encoded.compression_method,
                                        codecs,
                                        plan,
                                        local.payload_sha1,
                                    ),
                                    end,
                                ),
                            },
                        },
                    },
                },
            }
        },
    }
}

/// The state with the files of the rest of the encoded records.
pub open spec fn encoded_entries_from(
    state: EntriesState,
    archive: Seq<u8>,
    detected: DetectedFooterView,
    records: Seq<u8>,
    rest: Seq<Located>,
) -> std::result::Result<EntriesState, PakErrorView>
    decreases rest.len(),
{
    if rest.len() == 0 {
        Ok(state)
    } else {
        match with_encoded(state, archive, detected, records, rest[0].0, rest[0].1) {
            Err(error) => Err(error),
            Ok(next) => encoded_entries_from(next, archive, detected, records, rest.skip(1)),
        }
    }
}

fn add_encoded(
    entries: &mut OrderedMap<EntryRecord>,
    occupied: &mut Vec<Occupied>,
    archive: &[u8],
    detected: &DetectedFooter,
    records: &[u8],
    path: &str,
    offset: usize,
) -> (result: Result<()>)
    requires
        old(entries).well_formed(),
        detected.footer.index_offset <= archive@.len(),
    ensures
        final(entries).well_formed(),
        match (
            result,
            with_encoded(
                EntriesState { entries: old(entries)@, occupied: occupied_views(old(occupied)@) },
                archive@,
                detected@,
                records@,
                path@,
                offset,
            ),
        ) {
            (Ok(_), Ok(state)) => state == (EntriesState {
                entries: final(entries)@,
                occupied: occupied_views(final(occupied)@),
            }),
            (Err(error), Err(wanted)) => error@ == wanted,
            _ => false,
        },
{
    proof {
        reveal(with_encoded);
    }
    let encoded = parse_encoded_entry(records, offset, path)?;
    if encoded.encrypted {
        return Err(PakError::EncryptedEntry { path: path.to_owned() });
    }
    validate_compression_method(detected, encoded.compression_method, path)?;
    let header_size: u64 = serialized_entry_header_size(
        detected.version,
        encoded.compression_method != 0,
        encoded.block_sizes.len() as u32,
    )?;
    let end: u64 = data_end(
        encoded.header_offset,
        header_size,
        encoded.compressed_size,
        detected.footer.index_offset,
        path,
    )?;
    let local = validate_local_entry_header(archive, detected, path, &encoded, header_size)?;
    let plan = build_direct_decode_plan(
        &local,
        encoded.header_offset,
        header_size,
        detected,
        path,
    )?;
    let record = make_record(
        path.to_owned(),
        encoded.header_offset,
        header_size,
        encoded.compressed_size,
        encoded.uncompressed_size,
        encoded.compression_method,
        detected,
        plan,
        local.payload_sha1,
    );
    add_record(entries, occupied, record, end)
}

fn add_all_encoded(
    entries: &mut OrderedMap<EntryRecord>,
    occupied: &mut Vec<Occupied>,
    archive: &[u8],
    detected: &DetectedFooter,
    records: &[u8],
    paths: &Vec<(String, usize)>,
) -> (result: Result<()>)
    requires
        old(entries).well_formed(),
        detected.footer.index_offset <= archive@.len(),
    ensures
        final(entries).well_formed(),
        match (
            result,
            encoded_entries_from(
                EntriesState { entries: old(entries)@, occupied: occupied_views(old(occupied)@) },
                archive@,
                detected@,
                records@,
                located(paths@),
            ),
        ) {
            (Ok(_), Ok(state)) => state == (EntriesState {
                entries: final(entries)@,
                occupied: occupied_views(final(occupied)@),
            }),
            (Err(error), Err(wanted)) => error@ == wanted,
            _ => false,
        },
{
    let mut at: usize = 0;
    let ghost all = located(paths@);
    let ghost whole = encoded_entries_from(
        EntriesState { entries: entries@, occupied: occupied_views(occupied@) },
        archive@,
        detected@,
        records@,
        all,
    );
    proof {
        assert(all.skip(0) == all);
    }
    while at < paths.len()
        invariant
            at <= paths@.len(),
            all == located(paths@),
            entries.well_formed(),
            detected.footer.index_offset <= archive@.len(),
            whole == encoded_entries_from(
                EntriesState { entries: old(entries)@, occupied: occupied_views(old(occupied)@) },
                archive@,
                detected@,
                records@,
                all,
            ),
            whole == encoded_entries_from(
                EntriesState { entries: entries@, occupied: occupied_views(occupied@) },
                archive@,
                detected@,
                records@,
                all.skip(at as int),
            ),
        decreases paths.len() - at,
    {
        proof {
            assert(all.skip(at as int)[0] == (paths@[at as int].0@, paths@[at as int].1));
            assert(all.skip(at as int).skip(1) == all.skip(at as int + 1));
        }
        add_encoded(
            entries,
            occupied,
            archive,
            detected,
            records,
            paths[at].0.as_str(),
            paths[at].1,
        )?;
        at += 1;
    }
    Ok(())
}

/// A region that may be absent.
pub open spec fn region_at(name: Seq<char>, data: Seq<u8>, at: int, context: Seq<char>) -> Step<
    Option<IndexRegionView>,
> {
    match u32_at(data, at, context) {
        Err(error) => Err(error),
        Ok((flag, at1)) => if flag == 0 {
            Ok((None, at1))
        } else if flag == 1 {
            match u64_at(data, at1, context) {
                Err(error) => Err(error),
                Ok((offset, at2)) => match u64_at(data, at2, context) {
                    Err(error) => Err(error),
                    Ok((size, at3)) => match bytes_at(data, at3, 20, context) {
                        Err(error) => Err(error),
                        Ok((expected_sha1, at4)) => Ok(
                            (Some(IndexRegionView { name, offset, size, expected_sha1 }), at4),
                        ),
                    },
                },
            }
        } else {
            corrupt(name + " presence flag is not boolean: "@ + dec(flag as nat))
        },
    }
}

pub open spec fn region_view(region: Option<IndexRegion>) -> Option<IndexRegionView> {
    match region {
        Some(region) => Some(region@),
        None => None,
    }
}

fn read_optional_index_region(cursor: &mut SliceReader, name: &'static str) -> (result: Result<
    Option<IndexRegion>,
>)
    requires
        old(cursor).well_formed(),
    ensures
        final(cursor).continues(old(cursor)),
        match (
            result,
            region_at(name@, old(cursor).data@, old(cursor).position as int, old(cursor).context@),
        ) {
            (Ok(region), Ok((wanted, next))) => region_view(region) == wanted && final(cursor).position == next,
            (Err(error), Err(wanted)) => error@ == wanted,
            _ => false,
        },
{
    let flag: u32 = cursor.read_u32()?;
    if flag == 0 {
        Ok(None)
    } else if flag == 1 {
        let offset: u64 = cursor.read_u64()?;
        let size: u64 = cursor.read_u64()?;
        let expected_sha1 = cursor.read_array_20()?;
        Ok(Some(IndexRegion { name, offset, size, expected_sha1 }))
    } else {
        Err(
            PakError::Corrupt(
                cat3(name, " presence flag is not boolean: ", decimal(flag as u64).as_str()),
            ),
        )
    }
}

/// What the primary index of versions 10 and 11 says.
pub struct PrimaryIndex<'a> {
    pub mount_point: String,
    pub record_count: u32,
    pub path_hash_seed: u64,
    pub path_hash_region: IndexRegion,
    pub directory_region: IndexRegion,
    pub records: &'a [u8],
}

#[verifier::ext_equal]
pub struct PrimaryIndexView {
    pub mount_point: Seq<char>,
    pub record_count: u32,
    pub path_hash_seed: u64,
    pub path_hash_region: IndexRegionView,
    pub directory_region: IndexRegionView,
    pub records: Seq<u8>,
}

impl<'a> View for PrimaryIndex<'a> {
    type V = PrimaryIndexView;

    open spec fn view(&self) -> PrimaryIndexView {
        PrimaryIndexView {
            mount_point: self.mount_point@,
            record_count: self.record_count,
            path_hash_seed: self.path_hash_seed,
            path_hash_region: self.path_hash_region@,
            directory_region: self.directory_region@,
            records: self.records@,
        }
    }
}

/// A region that must be there.
pub open spec fn required_region_at(
    name: Seq<char>,
    version: u32,
    data: Seq<u8>,
    at: int,
    context: Seq<char>,
) -> Step<IndexRegionView> {
    match region_at(name, data, at, context) {
        Err(error) => Err(error),
        Ok((None, _)) => unsupported("v"@ + dec(version as nat) + " "@ + name + " is absent"@),
        Ok((Some(region), next)) => Ok((region, next)),
    }
}

fn read_required_region(cursor: &mut SliceReader, name: &'static str, version: u32) -> (result: Result<
    IndexRegion,
>)
    requires
        old(cursor).well_formed(),
    ensures
        final(cursor).continues(old(cursor)),
        took(result, final(cursor).position as int, required_region_at(name@, version, old(cursor).data@, old(cursor).position as int, old(cursor).context@)),
{
    match read_optional_index_region(cursor, name)? {
        Some(region) => Ok(region),
        None => Err(
            PakError::UnsupportedLayout(
                cat5("v", decimal(version as u64).as_str(), " ", name, " is absent"),
            ),
        ),
    }
}

/// The records and what follows them in the primary index.
pub open spec fn records_at(data: Seq<u8>, at: int, context: Seq<char>) -> std::result::Result<
    Seq<u8>,
    PakErrorView,
> {
    match u32_at(data, at, context) {
        Err(error) => Err(error),
        Ok((size, at1)) => match bytes_at(data, at1, size as int, context) {
            Err(error) => Err(error),
            Ok((records, at2)) => match u32_at(data, at2, context) {
                Err(error) => Err(error),
                Ok((plain, at3)) => if plain != 0 {
                    unsupported(dec(plain as nat) + " non-encoded entries are present"@)
                } else {
                    match finished(data, at3, context) {
                        Err(error) => Err(error),
                        Ok(_) => Ok(records),
                    }
                },
            },
        },
    }
}

pub open spec fn primary_index(data: Seq<u8>, version: u32) -> std::result::Result<
    PrimaryIndexView,
    PakErrorView,
> {
    let context = "primary index"@;
    match fstring_at(data, 0, context) {
        Err(error) => Err(error),
        Ok((mount, at1)) => match normal_mount(mount) {
            Err(error) => Err(error),
            Ok(mount_point) => match u32_at(data, at1, context) {
                Err(error) => Err(error),
                Ok((record_count, at2)) => if record_count > MAX_ENTRY_COUNT {
                    unsupported(
                        "file count "@ + dec(record_count as nat) + " exceeds limit "@ + dec(
                            MAX_ENTRY_COUNT as nat,
                        ),
                    )
                } else {
                    match u64_at(data, at2, context) {
                        Err(error) => Err(error),
                        Ok((path_hash_seed, at3)) => match required_region_at(
                            "path hash index"@,
                            version,
                            data,
                            at3,
                            context,
                        ) {
                            Err(error) => Err(error),
                            Ok((path_hash_region, at4)) => match required_region_at(
                                "full directory index"@,
                                version,
                                data,
                                at4,
                                context,
                            ) {
                                Err(error) => Err(error),
                                Ok((directory_region, at5)) => match records_at(data, at5, context) {
                                    Err(error) => Err(error),
                                    Ok(records) => Ok(
                                        PrimaryIndexView {
                                            mount_point,
                                            record_count,
                                            path_hash_seed,
                                            path_hash_region,
                                            directory_region,
                                            records,
                                        },
                                    ),
                                },
                            },
                        },
                    }
                },
            },
        },
    }
}

fn too_many_files(count: u32) -> (error: PakError)
    ensures
        error@ == PakErrorView::UnsupportedLayout(
            "file count "@ + dec(count as nat) + " exceeds limit "@ + dec(MAX_ENTRY_COUNT as nat),
        ),
{
    PakError::UnsupportedLayout(
        cat4(
            "file count ",
            decimal(count as u64).as_str(),
            " exceeds limit ",
            decimal(MAX_ENTRY_COUNT as u64).as_str(),
        ),
    )
}

fn parse_primary_index<'a>(data: &'a [u8], version: u32) -> (result: Result<PrimaryIndex<'a>>)
    ensures
        seen(result) == primary_index(data@, version),
{
    let mut cursor = SliceReader::new(data, "primary index");
    let mount = cursor.read_fstring()?;
    let mount_point = normalize_mount_point(mount.as_str())?;
    let record_count: u32 = cursor.read_u32()?;
    if record_count > MAX_ENTRY_COUNT {
        return Err(too_many_files(record_count));
    }
    let path_hash_seed: u64 = cursor.read_u64()?;
    let path_hash_region = read_required_region(&mut cursor, "path hash index", version)?;
    let directory_region = read_required_region(&mut cursor, "full directory index", version)?;
    let records_size: u32 = cursor.read_u32()?;
    let records = cursor.read_bytes(records_size as usize)?;
    let plain_count: u32 = cursor.read_u32()?;
    if plain_count != 0 {
        return Err(
            PakError::UnsupportedLayout(
                cat2(decimal(plain_count as u64).as_str(), " non-encoded entries are present"),
            ),
        );
    }
    cursor.finish()?;
    Ok(
        PrimaryIndex {
            mount_point,
            record_count,
            path_hash_seed,
            path_hash_region,
            directory_region,
            records,
        },
    )
}

/// What is wrong with the place of a region behind the primary index.
pub open spec fn place_fault(region: IndexRegionView, primary_end: int, limit: u64) -> Option<
    PakErrorView,
> {
    if region.offset < primary_end {
        Some(
            PakErrorView::Corrupt(region.name + " overlaps or precedes the primary index end"@),
        )
    } else {
        match region_fault(region.name, region.offset, region.size, limit) {
            Some(error) => Some(error),
            None => if region.size > MAX_INDEX_BYTES {
                Some(
                    PakErrorView::UnsupportedLayout(
                        region.name + " is "@ + dec(region.size as nat) + " bytes (limit "@ + (dec(
                            MAX_INDEX_BYTES as nat,
                        ) + ")"@),
                    ),
                )
            } else {
                None
            },
        }
    }
}

fn check_place(region: &IndexRegion, primary_end: u64, limit: u64) -> (result: Result<()>)
    ensures
        seen(result) == check(place_fault(region@, primary_end as int, limit)),
{
    if region.offset < primary_end {
        return Err(
            PakError::Corrupt(
                cat2(region.name, " overlaps or precedes the primary index end"),
            ),
        );
    }
    validate_region(region.name, region.offset, region.size, limit)?;
    if region.size > MAX_INDEX_BYTES {
        return Err(
            PakError::UnsupportedLayout(
                cat5(
                    region.name,
                    " is ",
                    decimal(region.size).as_str(),
                    " bytes (limit ",
                    cat2(decimal(MAX_INDEX_BYTES).as_str(), ")").as_str(),
                ),
            ),
        );
    }
    Ok(())
}

/// What is wrong with the places of the three indexes.
pub open spec fn indexes_fault(detected: DetectedFooterView, primary: PrimaryIndexView) -> Option<
    PakErrorView,
> {
    let footer = detected.footer;
    let end = footer.index_offset + footer.index_size;
    let combined = footer.index_size + primary.path_hash_region.size
        + primary.directory_region.size;
    if end > u64::MAX {
        Some(PakErrorView::Corrupt("primary index range overflow"@))
    } else {
        match place_fault(primary.path_hash_region, end, detected.footer_offset) {
            Some(error) => Some(error),
            None => match place_fault(primary.directory_region, end, detected.footer_offset) {
                Some(error) => Some(error),
                None => if combined > u64::MAX {
                    Some(PakErrorView::Corrupt("combined index size overflow"@))
                } else if combined > MAX_COMBINED_INDEX_BYTES {
                    Some(
                        PakErrorView::UnsupportedLayout(
                            "combined indexes are "@ + dec(combined as nat) + " bytes (limit "@
                                + dec(MAX_COMBINED_INDEX_BYTES as nat) + ")"@,
                        ),
                    )
                } else {
                    overlap_fault(primary.path_hash_region, primary.directory_region)
                },
            },
        }
    }
}

fn check_indexes(detected: &DetectedFooter, primary: &PrimaryIndex) -> (result: Result<()>)
    ensures
        seen(result) == check(indexes_fault(detected@, primary@)),
{
    let index_size: u64 = detected.footer.index_size;
    let primary_end: u64 = match detected.footer.index_offset.checked_add(index_size) {
        Some(primary_end) => primary_end,
        None => {
            return Err(PakError::Corrupt("primary index range overflow".to_owned()));
        },
    };
    check_place(&primary.path_hash_region, primary_end, detected.footer_offset)?;
    check_place(&primary.directory_region, primary_end, detected.footer_offset)?;
    let combined: u64 = match index_size.checked_add(primary.path_hash_region.size) {
        Some(partial) => match partial.checked_add(primary.directory_region.size) {
            Some(combined) => combined,
            None => {
                return Err(PakError::Corrupt("combined index size overflow".to_owned()));
            },
        },
        None => {
            return Err(PakError::Corrupt("combined index size overflow".to_owned()));
        },
    };
    if combined > MAX_COMBINED_INDEX_BYTES {
        return Err(
            PakError::UnsupportedLayout(
                cat5(
                    "combined indexes are ",
                    decimal(combined).as_str(),
                    " bytes (limit ",
                    decimal(MAX_COMBINED_INDEX_BYTES).as_str(),
                    ")",
                ),
            ),
        );
    }
    ensure_regions_disjoint(&primary.path_hash_region, &primary.directory_region)
}

pub open spec fn offsets_of(paths: Seq<Located>) -> Set<usize> {
    Set::new(|offset: usize| exists|i: int| 0 <= i < paths.len() && #[trigger] paths[i].1 == offset)
}

/// The hashes name the records that the directory index names.
fn same_offsets(hashes: &BTreeMap<usize, u64>, paths: &Vec<(String, usize)>) -> (result: bool)
    ensures
        result == (hashes@.dom() == offsets_of(located(paths@))),
{
    broadcast use vstd::std_specs::btree::group_btree_axioms;

    let mut met: BTreeSet<usize> = BTreeSet::new();
    let mut at: usize = 0;
    let ghost all = located(paths@);
    while at < paths.len()
        invariant
            at <= paths@.len(),
            all == located(paths@),
            met@ == offsets_of(all.take(at as int)),
            met@.subset_of(hashes@.dom()),
            met@.finite(),
        decreases paths.len() - at,
    {
        let offset: usize = paths[at].1;
        proof {
            assert(all[at as int].1 == offset);
            assert(offsets_of(all).contains(offset));
        }
        if hashes.get(&offset).is_none() {
            return false;
        }
        met.insert(offset);
        proof {
            let now = offsets_of(all.take(at as int + 1));
            let before = offsets_of(all.take(at as int));
            assert forall|value: usize| now.contains(value) <==> before.insert(offset).contains(
                value,
            ) by {
                if before.contains(value) {
                    let i = choose|i: int| 0 <= i < at && #[trigger] all.take(at as int)[i].1 == value;
                    assert(all.take(at as int + 1)[i].1 == value);
                }
                if now.contains(value) && value != offset {
                    let i = choose|i: int|
                        0 <= i < at + 1 && #[trigger] all.take(at as int + 1)[i].1 == value;
                    assert(all.take(at as int)[i].1 == value);
                }
                if value == offset {
                    assert(all.take(at as int + 1)[at as int].1 == value);
                }
            }
            assert(now =~= before.insert(offset));
        }
        at += 1;
    }
    proof {
        assert(all.take(at as int) =~= all);
        if met@.len() == hashes@.dom().len() {
            vstd::set_lib::lemma_subset_equality(met@, hashes@.dom());
        }
    }
    met.len() == hashes.len()
}

/// The file list of an archive of version 10 or 11.
pub open spec fn modern_indexes(archive: Seq<u8>, detected: DetectedFooterView) -> std::result::Result<
    ParsedIndexesView,
    PakErrorView,
> {
    let footer = detected.footer;
    match decoded_sha1(footer.index_sha1) {
        Err(error) => Err(error),
        Ok(expected_sha1) => match verified_region(
            archive,
            IndexRegionView {
                name: "primary index"@,
                offset: footer.index_offset,
                size: footer.index_size,
                expected_sha1,
            },
            detected.footer_offset,
        ) {
            Err(error) => Err(error),
            Ok(data) => match primary_index(data, footer.version) {
                Err(error) => Err(error),
                Ok(primary) => match indexes_fault(detected, primary) {
                    Some(error) => Err(error),
                    None => match listed_paths(archive, detected, primary) {
                        Err(error) => Err(error),
                        Ok(paths) => match encoded_entries_from(
                            EntriesState { entries: Seq::empty(), occupied: Seq::empty() },
                            archive,
                            detected,
                            primary.records,
                            paths,
                        ) {
                            Err(error) => Err(error),
                            Ok(state) => match settled(state) {
                                Err(error) => Err(error),
                                Ok(entries) => Ok(
                                    ParsedIndexesView {
                                        mount_point: primary.mount_point,
                                        path_hash_seed: primary.path_hash_seed,
                                        entries,
                                    },
                                ),
                            },
                        },
                    },
                },
            },
        },
    }
}

/// The paths of the directory index, once the path hash index confirms them.
pub open spec fn listed_paths(archive: Seq<u8>, detected: DetectedFooterView, primary: PrimaryIndexView) -> std::result::Result<
    Seq<Located>,
    PakErrorView,
> {
    let limit = detected.footer_offset;
    match verified_region(archive, primary.path_hash_region, limit) {
        Err(error) => Err(error),
        Ok(hash_bytes) => match path_hashes(
            hash_bytes,
            primary.record_count,
            primary.records.len() as usize,
        ) {
            Err(error) => Err(error),
            Ok(hashes) => match verified_region(archive, primary.directory_region, limit) {
                Err(error) => Err(error),
                Ok(directory_bytes) => match full_directory(directory_bytes, primary.record_count) {
                    Err(error) => Err(error),
                    Ok(paths) => if hashes.dom() != offsets_of(paths) {
                        corrupt(
                            "path hash and full directory indexes reference different encoded entries"@,
                        )
                    } else {
                        match path_hash_fault(hashes, paths, primary.path_hash_seed) {
                            Some(error) => Err(error),
                            None => Ok(paths),
                        }
                    },
                },
            },
        },
    }
}

fn list_paths(archive: &[u8], detected: &DetectedFooter, primary: &PrimaryIndex) -> (result: Result<
    Vec<(String, usize)>,
>)
    requires
        detected.footer_offset <= archive@.len(),
    ensures
        match (result, listed_paths(archive@, detected@, primary@)) {
            (Ok(paths), Ok(wanted)) => located(paths@) == wanted,
            (Err(error), Err(wanted)) => error@ == wanted,
            _ => false,
        },
{
    let limit: u64 = detected.footer_offset;
    let hash_bytes = read_region_verified(archive, &primary.path_hash_region, limit)?;
    let hashes = parse_path_hash_index(hash_bytes, primary.record_count, primary.records.len())?;
    let directory_bytes = read_region_verified(archive, &primary.directory_region, limit)?;
    let paths = parse_full_directory_index(directory_bytes, primary.record_count)?;
    if !same_offsets(&hashes, &paths) {
        return Err(
            PakError::Corrupt(
                "path hash and full directory indexes reference different encoded entries".to_owned(),
            ),
        );
    }
    validate_path_hashes(&hashes, &paths, primary.path_hash_seed)?;
    Ok(paths)
}

#[verifier::rlimit(60)]
pub fn parse_and_validate_modern_indexes(archive: &[u8], detected: &DetectedFooter) -> (result: Result<
    ParsedIndexes,
>)
    requires
        detected.footer_offset <= archive@.len(),
        detected.footer.index_offset <= archive@.len(),
    ensures
        seen(result) == modern_indexes(archive@, detected@),
        result matches Ok(parsed) ==> parsed.entries.well_formed(),
{
    let expected_sha1 = decode_sha1(detected.footer.index_sha1.as_str())?;
    let region = IndexRegion {
        name: "primary index",
        offset: detected.footer.index_offset,
        size: detected.footer.index_size,
        expected_sha1,
    };
    let data = read_region_verified(archive, &region, detected.footer_offset)?;
    let primary = parse_primary_index(data, detected.footer.version)?;
    check_indexes(detected, &primary)?;
    let paths = list_paths(archive, detected, &primary)?;
    let mut entries: OrderedMap<EntryRecord> = OrderedMap::new();
    let mut occupied: Vec<Occupied> = Vec::new();
    proof {
        assert(occupied_views(occupied@) =~= Seq::empty());
    }
    add_all_encoded(
        &mut entries,
        &mut occupied,
        archive,
        detected,
        primary.records,
        &paths,
    )?;
    check_ranges(&occupied)?;
    Ok(
        ParsedIndexes {
            mount_point: primary.mount_point,
            path_hash_seed: primary.path_hash_seed,
            entries,
        },
    )
}

/// The header of a file says what the plain index says of it.
pub open spec fn records_agree(local: LegacyEntryView, indexed: LegacyEntryView) -> bool {
    local == LegacyEntryView { stored_offset: 0, ..indexed }
}

fn same_blocks(left: &Vec<CompressionBlock>, right: &Vec<CompressionBlock>) -> (result: bool)
    ensures
        result == (left@ == right@),
{
    if left.len() != right.len() {
        return false;
    }
    let mut at: usize = 0;
    while at < left.len()
        invariant
            at <= left@.len(),
            left@.len() == right@.len(),
            forall|i: int| 0 <= i < at ==> left@[i] == right@[i],
        decreases left.len() - at,
    {
        if left[at] != right[at] {
            return false;
        }
        at += 1;
    }
    assert(left@ =~= right@);
    true
}

fn same_stamp(left: Option<u64>, right: Option<u64>) -> (result: bool)
    ensures
        result == (left == right),
{
    match (left, right) {
        (Some(left), Some(right)) => left == right,
        (None, None) => true,
        _ => false,
    }
}

fn same_records(local: &LegacyEntryMetadata, indexed: &LegacyEntryMetadata) -> (result: bool)
    ensures
        result == records_agree(local@, indexed@),
{
    local.stored_offset == 0 && local.compressed_size == indexed.compressed_size
        && local.uncompressed_size == indexed.uncompressed_size && local.compression_method
        == indexed.compression_method && same_stamp(local.timestamp, indexed.timestamp) && same_bytes(
        local.payload_sha1.as_slice(),
        indexed.payload_sha1.as_slice(),
    ) && same_blocks(&local.blocks, &indexed.blocks) && local.flags == indexed.flags
        && local.compression_block_size == indexed.compression_block_size
}

/// The state with the file of one record of a plain index.
#[verifier::opaque]
pub open spec fn with_indexed(
    state: EntriesState,
    archive: Seq<u8>,
    detected: DetectedFooterView,
    path: Seq<char>,
    indexed: LegacyEntryView,
) -> std::result::Result<EntriesState, PakErrorView> {
    let version = detected.version;
    let codecs = detected.compression_codecs;
    match header_size_of(version, indexed.compression_method != 0, indexed.blocks.len() as u32) {
        Err(error) => Err(error),
        Ok(header_size) => match blocks_fault(
            indexed,
            indexed.stored_offset,
            header_size,
            version,
            path,
        ) {
            Some(error) => Err(error),
            None => match data_end_of(
                indexed.stored_offset,
                header_size,
                indexed.compressed_size,
                detected.footer.index_offset,
                path,
            ) {
                Err(error) => Err(error),
                Ok(end) => match header_record(
                    archive,
                    version,
                    codecs,
                    path,
                    indexed.stored_offset,
                    header_size,
                    "legacy file header"@,
                ) {
                    Err(error) => Err(error),
                    Ok(local) => if !records_agree(local, indexed) {
                        Err(disagreement(path))
                    } else {
                        match direct_plan_of(
                            local,
                            indexed.stored_offset,
                            header_size,
                            version,
                            codecs,
                            path,
                            DIRECT_DECODE_LOGICAL_BLOCK_THRESHOLD,
                            DIRECT_DECODE_STORED_BLOCK_THRESHOLD,
                        ) {
                            Err(error) => Err(error),
                            Ok(plan) => with_record(
                                state,
                                record_of(
                                    path,
                                    indexed.stored_offset,
                                    header_size,
                                    indexed.compressed_size,
                                    indexed.uncompressed_size,
                                    indexed.compression_method,
                                    codecs,
                                    plan,
                                    indexed.payload_sha1,
                                ),
                                end,
                            ),
                        }
                    },
                },
            },
        },
    }
}

fn add_indexed(
    entries: &mut OrderedMap<EntryRecord>,
    occupied: &mut Vec<Occupied>,
    archive: &[u8],
    detected: &DetectedFooter,
    path: &str,
    indexed: LegacyEntryMetadata,
) -> (result: Result<()>)
    requires
        old(entries).well_formed(),
        detected.footer.index_offset <= archive@.len(),
    ensures
        final(entries).well_formed(),
        match (
            result,
            with_indexed(
                EntriesState { entries: old(entries)@, occupied: occupied_views(old(occupied)@) },
                archive@,
                detected@,
                path@,
                indexed@,
            ),
        ) {
            (Ok(_), Ok(state)) => state == (EntriesState {
                entries: final(entries)@,
                occupied: occupied_views(final(occupied)@),
            }),
            (Err(error), Err(wanted)) => error@ == wanted,
            _ => false,
        },
{
    proof {
        reveal(with_indexed);
    }
    let header_size: u64 = serialized_entry_header_size(
        detected.version,
        indexed.compression_method != 0,
        indexed.blocks.len() as u32,
    )?;
    validate_compression_blocks(
        &indexed,
        indexed.stored_offset,
        header_size,
        detected.version,
        path,
    )?;
    let end: u64 = data_end(
        indexed.stored_offset,
        header_size,
        indexed.compressed_size,
        detected.footer.index_offset,
        path,
    )?;
    let local = read_header_record(
        archive,
        detected,
        path,
        indexed.stored_offset,
        header_size,
        "legacy file header",
    )?;
    if !same_records(&local, &indexed) {
        return Err(header_disagrees(path));
    }
    let plan = build_direct_decode_plan(
        &local,
        indexed.stored_offset,
        header_size,
        detected,
        path,
    )?;
    let record = make_record(
        path.to_owned(),
        indexed.stored_offset,
        header_size,
        indexed.compressed_size,
        indexed.uncompressed_size,
        indexed.compression_method,
        detected,
        plan,
        indexed.payload_sha1,
    );
    add_record(entries, occupied, record, end)
}

/// The state with the files of `count` more records of a plain index.
pub open spec fn indexed_entries_from(
    state: EntriesState,
    archive: Seq<u8>,
    detected: DetectedFooterView,
    data: Seq<u8>,
    at: int,
    count: int,
) -> std::result::Result<(EntriesState, int), PakErrorView>
    decreases count,
{
    let context = "legacy primary index"@;
    if count <= 0 {
        Ok((state, at))
    } else {
        match fstring_at(data, at, context) {
            Err(error) => Err(error),
            Ok((text, at1)) => match normal_path(text) {
                Err(error) => Err(error),
                Ok(path) => match legacy_entry_at(
                    detected.version,
                    detected.compression_codecs,
                    path,
                    data,
                    at1,
                    context,
                ) {
                    Err(error) => Err(error),
                    Ok((indexed, at2)) => match with_indexed(
                        state,
                        archive,
                        detected,
                        path,
                        indexed,
                    ) {
                        Err(error) => Err(error),
                        Ok(next) => indexed_entries_from(
                            next,
                            archive,
                            detected,
                            data,
                            at2,
                            count - 1,
                        ),
                    },
                },
            },
        }
    }
}

/// The file list of an archive of a version before 10.
pub open spec fn legacy_index(archive: Seq<u8>, detected: DetectedFooterView) -> std::result::Result<
    ParsedIndexesView,
    PakErrorView,
> {
    let footer = detected.footer;
    let context = "legacy primary index"@;
    match decoded_sha1(footer.index_sha1) {
        Err(error) => Err(error),
        Ok(expected_sha1) => match verified_region(
            archive,
            IndexRegionView {
                name: "primary index"@,
                offset: footer.index_offset,
                size: footer.index_size,
                expected_sha1,
            },
            detected.footer_offset,
        ) {
            Err(error) => Err(error),
            Ok(data) => match fstring_at(data, 0, context) {
                Err(error) => Err(error),
                Ok((mount, at1)) => match normal_mount(mount) {
                    Err(error) => Err(error),
                    Ok(mount_point) => match u32_at(data, at1, context) {
                        Err(error) => Err(error),
                        Ok((count, at2)) => if count > MAX_ENTRY_COUNT {
                            unsupported(
                                "file count "@ + dec(count as nat) + " exceeds limit "@ + dec(
                                    MAX_ENTRY_COUNT as nat,
                                ),
                            )
                        } else {
                            match indexed_entries_from(
                                EntriesState { entries: Seq::empty(), occupied: Seq::empty() },
                                archive,
                                detected,
                                data,
                                at2,
                                count as int,
                            ) {
                                Err(error) => Err(error),
                                Ok((state, at3)) => match finished(data, at3, context) {
                                    Err(error) => Err(error),
                                    Ok(_) => match settled(state) {
                                        Err(error) => Err(error),
                                        Ok(entries) => Ok(
                                            ParsedIndexesView {
                                                mount_point,
                                                path_hash_seed: 0,
                                                entries,
                                            },
                                        ),
                                    },
                                },
                            }
                        },
                    },
                },
            },
        },
    }
}

pub fn parse_and_validate_legacy_index(archive: &[u8], detected: &DetectedFooter) -> (result: Result<
    ParsedIndexes,
>)
    requires
        detected.footer_offset <= archive@.len(),
        detected.footer.index_offset <= archive@.len(),
    ensures
        seen(result) == legacy_index(archive@, detected@),
        result matches Ok(parsed) ==> parsed.entries.well_formed(),
{
    let expected_sha1 = decode_sha1(detected.footer.index_sha1.as_str())?;
    let region = IndexRegion {
        name: "primary index",
        offset: detected.footer.index_offset,
        size: detected.footer.index_size,
        expected_sha1,
    };
    let data = read_region_verified(archive, &region, detected.footer_offset)?;
    let mut cursor = SliceReader::new(data, "legacy primary index");
    let mount = cursor.read_fstring()?;
    let mount_point = normalize_mount_point(mount.as_str())?;
    let entry_count: u32 = cursor.read_u32()?;
    if entry_count > MAX_ENTRY_COUNT {
        return Err(too_many_files(entry_count));
    }
    let mut entries: OrderedMap<EntryRecord> = OrderedMap::new();
    let mut occupied: Vec<Occupied> = Vec::new();
    let mut index: u32 = 0;
    let ghost first = EntriesState { entries: Seq::empty(), occupied: Seq::empty() };
    let ghost whole = indexed_entries_from(
        first,
        archive@,
        detected@,
        data@,
        cursor.position as int,
        entry_count as int,
    );
    let ghost wanted = legacy_index(archive@, detected@);
    proof {
        assert(occupied_views(occupied@) =~= Seq::empty());
        assert(wanted == match whole {
            Err(error) => Err(error),
            Ok((state, at3)) => match finished(data@, at3, "legacy primary index"@) {
                Err(error) => Err(error),
                Ok(_) => match settled(state) {
                    Err(error) => Err(error),
                    Ok(entries) => Ok(
                        ParsedIndexesView {
                            mount_point: mount_point@,
                            path_hash_seed: 0,
                            entries,
                        },
                    ),
                },
            },
        });
    }
    while index < entry_count
        invariant
            index <= entry_count,
            entries.well_formed(),
            cursor.well_formed(),
            cursor.data == data,
            cursor.context@ == "legacy primary index"@,
            detected.footer.index_offset <= archive@.len(),
            wanted == legacy_index(archive@, detected@),
            whole is Err ==> wanted == Err::<ParsedIndexesView, PakErrorView>(whole->Err_0),
            whole == indexed_entries_from(
                EntriesState { entries: entries@, occupied: occupied_views(occupied@) },
                archive@,
                detected@,
                data@,
                cursor.position as int,
                entry_count - index,
            ),
        decreases entry_count - index,
    {
        let text = cursor.read_fstring()?;
        let path = normalize_entry_path(text.as_str())?;
        let indexed = parse_legacy_entry(&mut cursor, detected, path.as_str())?;
        add_indexed(&mut entries, &mut occupied, archive, detected, path.as_str(), indexed)?;
        index += 1;
    }
    cursor.finish()?;
    check_ranges(&occupied)?;
    Ok(ParsedIndexes { mount_point, path_hash_seed: 0, entries })
}

/// The file list of an archive.
pub open spec fn indexes_of(archive: Seq<u8>, detected: DetectedFooterView) -> std::result::Result<
    ParsedIndexesView,
    PakErrorView,
> {
    if detected.footer.version >= 10 {
        modern_indexes(archive, detected)
    } else {
        legacy_index(archive, detected)
    }
}

pub fn parse_and_validate_indexes(archive: &[u8], detected: &DetectedFooter) -> (result: Result<
    ParsedIndexes,
>)
    requires
        detected.footer_offset <= archive@.len(),
        detected.footer.index_offset <= archive@.len(),
    ensures
        seen(result) == indexes_of(archive@, detected@),
        result matches Ok(parsed) ==> parsed.entries.well_formed(),
{
    if detected.footer.version >= 10 {
        parse_and_validate_modern_indexes(archive, detected)
    } else {
        parse_and_validate_legacy_index(archive, detected)
    }
}

} // verus!
