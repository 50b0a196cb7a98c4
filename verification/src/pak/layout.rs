//! What holds of every archive that opens: its files stand in order, apart from
//! each other and before the index, and what is read of them is what the
//! inventory says.
use vstd::prelude::*;

use super::access::{
    entry_bytes, file_bytes, file_sound, files_sound, filled, logical_digest, mapped_bytes, place_of,
};
use super::archive::{
    hashes_from, outside_fault, paths_of, payload_fault, payload_of, LogicalValidation, OutsideReadingView,
    PakInventoryView, PayloadHashView,
};
use super::blocks::{
    direct_plan_of, header_size_of, legacy_entry_at, LegacyEntryView,
    DIRECT_DECODE_LOGICAL_BLOCK_THRESHOLD, DIRECT_DECODE_STORED_BLOCK_THRESHOLD,
};
use super::decode::{decoded, CachedLogicalEntryView};
use super::entries::{
    data_end_of, encoded_entries_from, indexed_entries_from, indexes_of, legacy_index, listed_paths,
    modern_indexes, placed, primary_index, ranges_fault, record_of, settled, with_encoded,
    with_indexed, with_record, Entries, EntriesState, EntryRecordView, OccupiedView,
};
use super::error::PakErrorView;
use super::footer::{
    candidates, decoded_sha1, detected_footer, footer_of, tried_versions, verified_region,
    DetectedFooterView, IndexRegionView, PakVersion,
};
use super::index::{encoded_entry, header_record, local_header, Located};
use super::open::{
    companion_key, content_of, contents_from, contents_sound, digest_fault_from, inventory_entries,
    no_contents, opened, output_at, package_tag, stale_accepted, tag_at, with_hashes, PakArchiveView,
};
use super::decode::DecoderOutputView;
use super::paths::{
    grouped, grouped_paths_are_normal, letter_case_does_not_matter, normal_path, sort_key_of,
};
use super::reader::{fstring_at, u32_at};
use crate::digest::{sha1_digest, sha256_digest};
use crate::ordered::{
    ascending, get, put_keeps_order, slot, slot_is, slot_parts, text_order_is_strict_and_total,
};
use crate::text::{hex_text, same_but_case, text_less};

verus! {

/// A file stands under its key and before `limit`; one that is not compressed is
/// stored as it is.
pub open spec fn file_stands(item: (Seq<char>, EntryRecordView), limit: u64) -> bool {
    &&& item.0 == sort_key_of(item.1.path)
    &&& item.1.header_offset + item.1.header_size + item.1.stored_size <= limit
    &&& !item.1.compressed ==> item.1.stored_size == item.1.size
}

/// All files stand, in the order of their keys.
pub open spec fn files_stand(entries: Entries, limit: u64) -> bool {
    &&& ascending(entries)
    &&& forall|i: int| 0 <= i < entries.len() ==> file_stands(#[trigger] entries[i], limit)
}

/// A file stands, and the digest that its bytes are expected to have is the one
/// that the archive records.
pub open spec fn file_listed(item: (Seq<char>, EntryRecordView), limit: u64) -> bool {
    file_stands(item, limit) && item.1.payload_sha1 == item.1.stored_payload_sha1
}

/// All files are listed, in the order of their keys.
pub open spec fn files_listed(entries: Entries, limit: u64) -> bool {
    &&& ascending(entries)
    &&& forall|i: int| 0 <= i < entries.len() ==> file_listed(#[trigger] entries[i], limit)
}

/// The bytes that a file takes, with its header.
pub open spec fn range_of(record: EntryRecordView) -> OccupiedView {
    OccupiedView {
        start: record.header_offset,
        end: (record.header_offset + record.header_size + record.stored_size) as u64,
        path: record.path,
    }
}

/// No two files share a byte.
pub open spec fn files_apart(entries: Entries) -> bool {
    forall|i: int, j: int|
        0 <= i < entries.len() && 0 <= j < entries.len() && i != j ==> range_of(
            (#[trigger] entries[i]).1,
        ).end <= (#[trigger] entries[j]).1.header_offset || range_of(entries[j].1).end
            <= entries[i].1.header_offset
}

pub open spec fn listed(list: Seq<OccupiedView>, item: OccupiedView) -> bool {
    exists|k: int| 0 <= k < list.len() && #[trigger] list[k] == item
}

pub open spec fn starts_ascend(list: Seq<OccupiedView>) -> bool {
    forall|i: int, j: int|
        0 <= i < j < list.len() ==> (#[trigger] list[i]).start <= (#[trigger] list[j]).start
}

/// What holds of the files that were met so far.
pub open spec fn covered(state: EntriesState, limit: u64) -> bool {
    &&& files_listed(state.entries, limit)
    &&& starts_ascend(state.occupied)
    &&& forall|i: int|
        0 <= i < state.entries.len() ==> listed(
            state.occupied,
            range_of((#[trigger] state.entries[i]).1),
        )
}

proof fn placed_is_there(list: Seq<OccupiedView>, item: OccupiedView, other: OccupiedView)
    requires
        starts_ascend(list),
    ensures
        starts_ascend(placed(list, item)),
        listed(placed(list, item), item),
        listed(list, other) ==> listed(placed(list, item), other),
        placed(list, item).len() == list.len() + 1,
        forall|k: int|
            0 <= k < placed(list, item).len() ==> (#[trigger] placed(list, item)[k]).start
                <= item.start || (list.len() > 0 && placed(list, item)[k].start
                <= list.last().start),
    decreases list.len(),
{
    let after = placed(list, item);
    if list.len() == 0 || list.last().start <= item.start {
        assert(after[list.len() as int] == item);
        if listed(list, other) {
            let k = choose|k: int| 0 <= k < list.len() && #[trigger] list[k] == other;
            assert(after[k] == other);
        }
        assert forall|i: int, j: int| 0 <= i < j < after.len() implies (#[trigger] after[i]).start
            <= (#[trigger] after[j]).start by {
            if j < list.len() {
                assert(after[i] == list[i] && after[j] == list[j]);
            } else {
                assert(after[i] == list[i]);
                if i < list.len() - 1 {
                    assert(list[i].start <= list[list.len() - 1].start);
                }
            }
        }
        assert forall|k: int| 0 <= k < after.len() implies (#[trigger] after[k]).start <= item.start
            || (list.len() > 0 && after[k].start <= list.last().start) by {
            if k < list.len() {
                assert(after[k] == list[k]);
                if k < list.len() - 1 {
                    assert(list[k].start <= list[list.len() - 1].start);
                }
            }
        }
    } else {
        let rest = list.drop_last();
        let before = placed(rest, item);
        assert(starts_ascend(rest)) by {
            assert forall|i: int, j: int| 0 <= i < j < rest.len() implies (
            #[trigger] rest[i]).start <= (#[trigger] rest[j]).start by {
                assert(rest[i] == list[i] && rest[j] == list[j]);
            }
        }
        placed_is_there(rest, item, other);
        assert(after == before.push(list.last()));
        let k = choose|k: int| 0 <= k < before.len() && #[trigger] before[k] == item;
        assert(after[k] == item);
        if listed(list, other) {
            let k = choose|k: int| 0 <= k < list.len() && #[trigger] list[k] == other;
            if k < rest.len() {
                assert(rest[k] == other);
                assert(listed(rest, other));
                let m = choose|m: int| 0 <= m < before.len() && #[trigger] before[m] == other;
                assert(after[m] == other);
            } else {
                assert(after[before.len() as int] == other);
            }
        }
        assert forall|k: int| 0 <= k < before.len() implies (#[trigger] before[k]).start
            <= list.last().start by {
            if rest.len() > 0 {
                assert(rest.last() == list[list.len() - 2]);
                assert(list[list.len() - 2].start <= list[list.len() - 1].start);
            }
        }
        assert forall|i: int, j: int| 0 <= i < j < after.len() implies (#[trigger] after[i]).start
            <= (#[trigger] after[j]).start by {
            assert(after[i] == before[i]);
            if j < before.len() {
                assert(after[j] == before[j]);
            }
        }
        assert forall|k: int| 0 <= k < after.len() implies (#[trigger] after[k]).start
            <= list.last().start by {
            if k < before.len() {
                assert(after[k] == before[k]);
            }
        }
    }
}

proof fn neighbours_apart(list: Seq<OccupiedView>, at: int)
    requires
        ranges_fault(list) is None,
        0 <= at < list.len() - 1,
    ensures
        list[at].end <= list[at + 1].start,
    decreases list.len(),
{
    if at > 0 {
        neighbours_apart(list.skip(1), at - 1);
        assert(list.skip(1)[at - 1] == list[at]);
        assert(list.skip(1)[at] == list[at + 1]);
    }
}

proof fn record_keeps_cover(state: EntriesState, record: EntryRecordView, end: u64, limit: u64)
    requires
        covered(state, limit),
        end == record.header_offset + record.header_size + record.stored_size,
        end <= limit,
        !record.compressed ==> record.stored_size == record.size,
        record.payload_sha1 == record.stored_payload_sha1,
    ensures
        with_record(state, record, end) matches Ok(next) ==> covered(next, limit),
{
    let key = sort_key_of(record.path);
    if get(state.entries, key) is None {
        let next = with_record(state, record, end)->Ok_0;
        let at = slot(state.entries, key);
        slot_parts(state.entries, key);
        put_keeps_order(state.entries, key, record);
        let item = OccupiedView { start: record.header_offset, end, path: record.path };
        assert(next.entries == state.entries.insert(at, (key, record)));
        placed_is_there(state.occupied, item, item);
        assert(range_of(record) == item);
        assert forall|i: int| 0 <= i < next.entries.len() implies file_listed(
            #[trigger] next.entries[i],
            limit,
        ) && listed(next.occupied, range_of(next.entries[i].1)) by {
            if i < at {
                assert(next.entries[i] == state.entries[i]);
                placed_is_there(state.occupied, item, range_of(state.entries[i].1));
            } else if i > at {
                assert(next.entries[i] == state.entries[i - 1]);
                placed_is_there(state.occupied, item, range_of(state.entries[i - 1].1));
            }
        }
    }
}

proof fn encoded_keeps_cover(
    state: EntriesState,
    archive: Seq<u8>,
    detected: DetectedFooterView,
    records: Seq<u8>,
    path: Seq<char>,
    offset: usize,
)
    requires
        covered(state, detected.footer.index_offset),
    ensures
        with_encoded(state, archive, detected, records, path, offset) matches Ok(next) ==> covered(
            next,
            detected.footer.index_offset,
        ),
{
    reveal(with_encoded);
    match with_encoded(state, archive, detected, records, path, offset) {
        Err(_) => {},
        Ok(next) => {
            let encoded = encoded_entry(records, offset as int, path)->Ok_0;
            assert(encoded.compression_method == 0 ==> encoded.compressed_size
                == encoded.uncompressed_size);
            let version = detected.version;
            let codecs = detected.compression_codecs;
            let header_size = header_size_of(
                version,
                encoded.compression_method != 0,
                encoded.block_sizes.len() as u32,
            )->Ok_0;
            let end = data_end_of(
                encoded.header_offset,
                header_size,
                encoded.compressed_size,
                detected.footer.index_offset,
                path,
            )->Ok_0;
            let local = local_header(archive, version, codecs, path, encoded, header_size)->Ok_0;
            let plan = direct_plan_of(
                local,
                encoded.header_offset,
                header_size,
                version,
                codecs,
                path,
                DIRECT_DECODE_LOGICAL_BLOCK_THRESHOLD,
                DIRECT_DECODE_STORED_BLOCK_THRESHOLD,
            )->Ok_0;
            record_keeps_cover(
                state,
                record_of(
                    path,
                    encoded.header_offset,
                    header_size,
                    encoded.compressed_size,
                    encoded.uncompressed_size,
                    encoded.compression_method,
                    codecs,
                    plan,
                    local.payload_sha1,
                ),
                end,
                detected.footer.index_offset,
            );
        },
    }
}

proof fn all_encoded_keep_cover(
    state: EntriesState,
    archive: Seq<u8>,
    detected: DetectedFooterView,
    records: Seq<u8>,
    rest: Seq<Located>,
)
    requires
        covered(state, detected.footer.index_offset),
    ensures
        encoded_entries_from(state, archive, detected, records, rest) matches Ok(after) ==> covered(
            after,
            detected.footer.index_offset,
        ),
    decreases rest.len(),
{
    if rest.len() > 0 {
        encoded_keeps_cover(state, archive, detected, records, rest[0].0, rest[0].1);
        match with_encoded(state, archive, detected, records, rest[0].0, rest[0].1) {
            Err(_) => {},
            Ok(next) => {
                all_encoded_keep_cover(next, archive, detected, records, rest.skip(1));
            },
        }
    }
}

proof fn indexed_keeps_cover(
    state: EntriesState,
    archive: Seq<u8>,
    detected: DetectedFooterView,
    path: Seq<char>,
    indexed: LegacyEntryView,
)
    requires
        covered(state, detected.footer.index_offset),
        indexed.compression_method == 0 ==> indexed.compressed_size == indexed.uncompressed_size,
    ensures
        with_indexed(state, archive, detected, path, indexed) matches Ok(next) ==> covered(
            next,
            detected.footer.index_offset,
        ),
{
    reveal(with_indexed);
    match with_indexed(state, archive, detected, path, indexed) {
        Err(_) => {},
        Ok(next) => {
            let version = detected.version;
            let codecs = detected.compression_codecs;
            let header_size = header_size_of(
                version,
                indexed.compression_method != 0,
                indexed.blocks.len() as u32,
            )->Ok_0;
            let end = data_end_of(
                indexed.stored_offset,
                header_size,
                indexed.compressed_size,
                detected.footer.index_offset,
                path,
            )->Ok_0;
            let local = header_record(
                archive,
                version,
                codecs,
                path,
                indexed.stored_offset,
                header_size,
                "legacy file header"@,
            )->Ok_0;
            let plan = direct_plan_of(
                local,
                indexed.stored_offset,
                header_size,
                version,
                codecs,
                path,
                DIRECT_DECODE_LOGICAL_BLOCK_THRESHOLD,
                DIRECT_DECODE_STORED_BLOCK_THRESHOLD,
            )->Ok_0;
            record_keeps_cover(
                state,
                record_of(
                    path,
                    indexed.stored_offset,
                    header_size,
                    indexed.compressed_size,
                    indexed.uncompressed_size,
                    indexed.compression_method,
                    codecs,
                    plan,
                    indexed.payload_sha1,
                ),
                end,
                detected.footer.index_offset,
            );
        },
    }
}

proof fn all_indexed_keep_cover(
    state: EntriesState,
    archive: Seq<u8>,
    detected: DetectedFooterView,
    data: Seq<u8>,
    at: int,
    count: int,
)
    requires
        covered(state, detected.footer.index_offset),
    ensures
        indexed_entries_from(state, archive, detected, data, at, count) matches Ok(after)
            ==> covered(after.0, detected.footer.index_offset),
    decreases count,
{
    let context = "legacy primary index"@;
    if count > 0 {
        match fstring_at(data, at, context) {
            Err(_) => {},
            Ok((text, at1)) => match normal_path(text) {
                Err(_) => {},
                Ok(path) => match legacy_entry_at(
                    detected.version,
                    detected.compression_codecs,
                    path,
                    data,
                    at1,
                    context,
                ) {
                    Err(_) => {},
                    Ok((indexed, at2)) => {
                        indexed_keeps_cover(state, archive, detected, path, indexed);
                        match with_indexed(state, archive, detected, path, indexed) {
                            Err(_) => {},
                            Ok(next) => {
                                all_indexed_keep_cover(
                                    next,
                                    archive,
                                    detected,
                                    data,
                                    at2,
                                    count - 1,
                                );
                            },
                        }
                    },
                },
            },
        }
    }
}

proof fn settled_files_are_apart(state: EntriesState, limit: u64)
    requires
        covered(state, limit),
    ensures
        settled(state) matches Ok(entries) ==> files_listed(entries, limit) && files_apart(entries),
{
    let list = state.occupied;
    let entries = state.entries;
    if ranges_fault(list) is None {
        assert forall|i: int, j: int|
            0 <= i < entries.len() && 0 <= j < entries.len() && i != j implies range_of(
            (#[trigger] entries[i]).1,
        ).end <= (#[trigger] entries[j]).1.header_offset || range_of(entries[j].1).end
            <= entries[i].1.header_offset by {
            let k = choose|k: int|
                0 <= k < list.len() && #[trigger] list[k] == range_of(entries[i].1);
            let m = choose|m: int|
                0 <= m < list.len() && #[trigger] list[m] == range_of(entries[j].1);
            assert(entries[i].0 != entries[j].0) by {
                text_order_is_strict_and_total(entries[i].0, entries[i].0, entries[i].0);
                if i < j {
                    assert(ascending(entries));
                } else {
                    assert(ascending(entries));
                }
            }
            assert(file_listed(entries[i], limit) && file_listed(entries[j], limit));
            assert(k != m);
            if k < m {
                neighbours_apart(list, k);
                if k + 1 < m {
                    assert(list[k + 1].start <= list[m].start);
                }
            } else {
                neighbours_apart(list, m);
                if m + 1 < k {
                    assert(list[m + 1].start <= list[k].start);
                }
            }
        }
    }
}

proof fn indexed_files_stand(archive: Seq<u8>, detected: DetectedFooterView)
    ensures
        indexes_of(archive, detected) matches Ok(parsed) ==> files_listed(
            parsed.entries,
            detected.footer.index_offset,
        ) && files_apart(parsed.entries),
{
    let start = EntriesState { entries: Seq::empty(), occupied: Seq::empty() };
    let limit = detected.footer.index_offset;
    assert(covered(start, limit));
    match indexes_of(archive, detected) {
        Err(_) => {},
        Ok(parsed) => {
            if detected.footer.version >= 10 {
                modern_files_listed(archive, detected);
            } else {
                legacy_files_listed(archive, detected);
            }
        },
    }
}

proof fn modern_files_listed(archive: Seq<u8>, detected: DetectedFooterView)
    ensures
        modern_indexes(archive, detected) matches Ok(parsed) ==> files_listed(
            parsed.entries,
            detected.footer.index_offset,
        ) && files_apart(parsed.entries),
{
    let start = EntriesState { entries: Seq::empty(), occupied: Seq::empty() };
    let limit = detected.footer.index_offset;
    assert(covered(start, limit));
    let footer = detected.footer;
    let region = IndexRegionView {
        name: "primary index"@,
        offset: footer.index_offset,
        size: footer.index_size,
        expected_sha1: decoded_sha1(footer.index_sha1)->Ok_0,
    };
    match verified_region(archive, region, detected.footer_offset) {
        Err(_) => {},
        Ok(data) => match primary_index(data, footer.version) {
            Err(_) => {},
            Ok(primary) => match listed_paths(archive, detected, primary) {
                Err(_) => {},
                Ok(paths) => {
                    all_encoded_keep_cover(start, archive, detected, primary.records, paths);
                    match encoded_entries_from(start, archive, detected, primary.records, paths) {
                        Err(_) => {},
                        Ok(state) => {
                            settled_files_are_apart(state, limit);
                        },
                    }
                },
            },
        },
    }
}

proof fn legacy_files_listed(archive: Seq<u8>, detected: DetectedFooterView)
    ensures
        legacy_index(archive, detected) matches Ok(parsed) ==> files_listed(
            parsed.entries,
            detected.footer.index_offset,
        ) && files_apart(parsed.entries),
{
    let start = EntriesState { entries: Seq::empty(), occupied: Seq::empty() };
    let limit = detected.footer.index_offset;
    let context = "legacy primary index"@;
    assert(covered(start, limit));
    let footer = detected.footer;
    let region = IndexRegionView {
        name: "primary index"@,
        offset: footer.index_offset,
        size: footer.index_size,
        expected_sha1: decoded_sha1(footer.index_sha1)->Ok_0,
    };
    match verified_region(archive, region, detected.footer_offset) {
        Err(_) => {},
        Ok(data) => match fstring_at(data, 0, context) {
            Err(_) => {},
            Ok((mount, at1)) => match u32_at(data, at1, context) {
                Err(_) => {},
                Ok((count, at2)) => {
                    all_indexed_keep_cover(start, archive, detected, data, at2, count as int);
                    match indexed_entries_from(
                        start,
                        archive,
                        detected,
                        data,
                        at2,
                        count as int,
                    ) {
                        Err(_) => {},
                        Ok((state, at3)) => {
                            settled_files_are_apart(state, limit);
                        },
                    }
                },
            },
        },
    }
}

proof fn hashes_are_of_the_payloads(
    done: Seq<PayloadHashView>,
    archive: Seq<u8>,
    rest: Entries,
    at: int,
)
    requires
        0 <= at < done.len() + rest.len(),
    ensures
        hashes_from(done, archive, rest) matches Ok(hashes) ==> {
            &&& hashes.len() == done.len() + rest.len()
            &&& at < done.len() ==> hashes[at] == done[at]
            &&& at >= done.len() ==> payload_fault(
                archive.len() as int,
                rest[at - done.len()].1,
            ) is None && hashes[at].sha256 == sha256_digest(
                payload_of(archive, rest[at - done.len()].1),
            ) && hashes[at].sha1 == sha1_digest(payload_of(archive, rest[at - done.len()].1))
        },
    decreases rest.len(),
{
    if rest.len() > 0 && payload_fault(archive.len() as int, rest[0].1) is None {
        let payload = payload_of(archive, rest[0].1);
        let more = done.push(
            PayloadHashView { sha1: sha1_digest(payload), sha256: sha256_digest(payload) },
        );
        hashes_are_of_the_payloads(more, archive, rest.skip(1), at);
        if at > done.len() {
            assert(rest.skip(1)[at - more.len()] == rest[at - done.len()]);
        }
    }
}

proof fn decoded_contents_are_whole(
    archive: Seq<u8>,
    entry: EntryRecordView,
    output: DecoderOutputView,
)
    ensures
        decoded(archive, entry, output) matches Ok(content) ==> content.bytes.len() == entry.size
            && content.sha256 == sha256_digest(content.bytes),
{
}

proof fn contents_stand_in_order(
    done: Seq<Option<CachedLogicalEntryView>>,
    archive: Seq<u8>,
    entries: Entries,
    outputs: Seq<DecoderOutputView>,
    strict: bool,
    at: int,
)
    requires
        done.len() <= entries.len(),
        0 <= at < entries.len(),
    ensures
        contents_from(done, archive, entries, outputs, strict) matches Ok(contents) ==> {
            &&& contents.len() == entries.len()
            &&& at < done.len() ==> contents[at] == done[at]
            &&& at >= done.len() && strict && entries[at].1.compressed ==> (
            contents[at] matches Some(content) && decoded(
                archive,
                entries[at].1,
                output_at(outputs, at),
            ) == Ok::<CachedLogicalEntryView, PakErrorView>(content))
            &&& at >= done.len() && !(strict && entries[at].1.compressed) ==> contents[at] is None
        },
    decreases entries.len() - done.len(),
{
    let next = done.len() as int;
    if next < entries.len() {
        if strict && entries[next].1.compressed {
            match decoded(archive, entries[next].1, output_at(outputs, next)) {
                Err(_) => {},
                Ok(content) => {
                    contents_stand_in_order(
                        done.push(Some(content)),
                        archive,
                        entries,
                        outputs,
                        strict,
                        at,
                    );
                },
            }
        } else {
            contents_stand_in_order(done.push(None), archive, entries, outputs, strict, at);
        }
    }
}

/// The files of every archive that opens stand in the order of their keys, each
/// key once, and no two of them share a byte; all of them stand before the index;
/// and the inventory has one record for each.
pub proof fn opened_files_stand_apart(
    path: Seq<char>,
    archive: Seq<u8>,
    validation: LogicalValidation,
    outside: OutsideReadingView,
)
    ensures
        opened(path, archive, validation, outside) matches Ok(found) ==> {
            &&& files_stand(found.entries, found.inventory.footer.index_offset)
            &&& files_apart(found.entries)
            &&& found.inventory.entries.len() == found.entries.len()
        },
{
    reveal(opened);
    match opened(path, archive, validation, outside) {
        Err(_) => {},
        Ok(found) => {
            let detected = detected_footer(archive)->Ok_0;
            let parsed = indexes_of(archive, detected)->Ok_0;
            let hashes = hashes_from(Seq::empty(), archive, parsed.entries)->Ok_0;
            indexed_files_stand(archive, detected);
            let limit = detected.footer.index_offset;
            assert(found.entries == with_hashes(parsed.entries, hashes));
            assert forall|i: int| 0 <= i < found.entries.len() implies file_stands(
                #[trigger] found.entries[i],
                limit,
            ) by {
                assert(file_listed(parsed.entries[i], limit));
            }
            assert forall|i: int, j: int| 0 <= i < j < found.entries.len() implies text_less(
                #[trigger] found.entries[i].0,
                #[trigger] found.entries[j].0,
            ) by {
                assert(text_less(parsed.entries[i].0, parsed.entries[j].0));
            }
            assert forall|i: int, j: int|
                0 <= i < found.entries.len() && 0 <= j < found.entries.len() && i
                    != j implies range_of((#[trigger] found.entries[i]).1).end <= (
            #[trigger] found.entries[j]).1.header_offset || range_of(found.entries[j].1).end
                <= found.entries[i].1.header_offset by {
                assert(parsed.entries[i].1.header_offset == found.entries[i].1.header_offset);
                assert(parsed.entries[j].1.header_offset == found.entries[j].1.header_offset);
            }
        },
    }
}

/// Every file that an opened archive lists has a path that may stand in a Pak, and
/// is found under it; the inventory lists it under the same path.
pub proof fn listed_files_are_found(
    path: Seq<char>,
    archive: Seq<u8>,
    validation: LogicalValidation,
    outside: OutsideReadingView,
    at: int,
)
    ensures
        opened(path, archive, validation, outside) matches Ok(found) ==> (0 <= at
            < found.entries.len() ==> {
            &&& normal_path(found.entries[at].1.path) is Ok
            &&& place_of(found, found.entries[at].1.path) == Ok::<int, PakErrorView>(at)
            &&& found.inventory.entries[at].path == found.entries[at].1.path
        }),
{
    opened_files_stand_apart(path, archive, validation, outside);
    opened_steps(path, archive, validation, outside);
    match opened(path, archive, validation, outside) {
        Err(_) => {},
        Ok(found) => {
            if 0 <= at < found.entries.len() {
                let key = found.entries[at].0;
                assert(file_stands(found.entries[at], found.inventory.footer.index_offset));
                text_order_is_strict_and_total(key, key, key);
                slot_is(found.entries, key, at);
                let paths = paths_of(found.entries);
                assert(paths[at] == found.entries[at].1.path);
                grouped_paths_are_normal(
                    Seq::empty(),
                    Seq::empty(),
                    Seq::empty(),
                    paths,
                    at,
                );
            }
        },
    }
}

/// A file is found, read and hashed alike under every spelling of a path that
/// differs in the case of ASCII letters alone.
pub proof fn spelling_does_not_matter(
    archive: PakArchiveView,
    left: Seq<char>,
    right: Seq<char>,
    max_bytes: u64,
)
    requires
        same_but_case(left, right),
    ensures
        place_of(archive, left) is Ok <==> place_of(archive, right) is Ok,
        place_of(archive, left) is Ok ==> {
            &&& place_of(archive, left) == place_of(archive, right)
            &&& entry_bytes(archive, left, max_bytes) == entry_bytes(archive, right, max_bytes)
            &&& mapped_bytes(archive, left, max_bytes) == mapped_bytes(archive, right, max_bytes)
            &&& logical_digest(archive, left) == logical_digest(archive, right)
        },
{
    letter_case_does_not_matter(left, right);
}

/// No two files of an opened archive have paths that differ in the case of their
/// ASCII letters alone.
pub proof fn files_differ_in_more_than_case(
    path: Seq<char>,
    archive: Seq<u8>,
    validation: LogicalValidation,
    outside: OutsideReadingView,
    left: int,
    right: int,
)
    requires
        left != right,
    ensures
        opened(path, archive, validation, outside) matches Ok(found) ==> (0 <= left
            < found.entries.len() && 0 <= right < found.entries.len() ==> !same_but_case(found.entries[left].1.path, found.entries[right].1.path)),
{
    opened_files_stand_apart(path, archive, validation, outside);
    match opened(path, archive, validation, outside) {
        Err(_) => {},
        Ok(found) => {
            let entries = found.entries;
            if 0 <= left < entries.len() && 0 <= right < entries.len() && same_but_case(entries[left].1.path, entries[right].1.path) {
                letter_case_does_not_matter(entries[left].1.path, entries[right].1.path);
                let limit = found.inventory.footer.index_offset;
                assert(file_stands(entries[left], limit) && file_stands(entries[right], limit));
                text_order_is_strict_and_total(entries[left].0, entries[left].0, entries[left].0);
                if left < right {
                    assert(text_less(entries[left].0, entries[right].0));
                } else {
                    assert(text_less(entries[right].0, entries[left].0));
                }
            }
        },
    }
}

/// Every digest that the inventory of an opened archive records is the digest of
/// some bytes: of the logical ones, or of the stored ones where it says so.
pub proof fn recorded_digests_are_digests(
    path: Seq<char>,
    archive: Seq<u8>,
    validation: LogicalValidation,
    outside: OutsideReadingView,
    at: int,
)
    ensures
        opened(path, archive, validation, outside) matches Ok(found) ==> (0 <= at
            < found.inventory.entries.len() ==> exists|bytes: Seq<u8>|
            found.inventory.entries[at].sha256 == hex_text(#[trigger] sha256_digest(bytes))),
{
    opened_files_stand_apart(path, archive, validation, outside);
    files_are_recorded(path, archive, validation, outside, at);
    match opened(path, archive, validation, outside) {
        Err(_) => {},
        Ok(found) => {
            if 0 <= at < found.inventory.entries.len() {
                let entry = found.entries[at].1;
                let payload = payload_of(archive, entry);
                if entry.compressed && validation.strict() {
                    decoded_contents_are_whole(archive, entry, output_at(found.outputs, at));
                    let content = content_of(found, at)->Ok_0;
                    assert(found.inventory.entries[at].sha256 == hex_text(
                        sha256_digest(content.bytes),
                    ));
                } else {
                    assert(found.inventory.entries[at].sha256 == hex_text(sha256_digest(payload)));
                }
            }
        },
    }
}

/// What is read of a file is what the inventory of its archive says, however the
/// archive was opened and whatever was decoded before: it has the recorded size,
/// its digest is the logical digest of the file, and that is the recorded digest
/// where the inventory says that it is logical.
pub proof fn reads_match_the_inventory(
    path: Seq<char>,
    archive: Seq<u8>,
    validation: LogicalValidation,
    outside: OutsideReadingView,
    file: Seq<char>,
    max_bytes: u64,
)
    ensures
        opened(path, archive, validation, outside) matches Ok(found) ==> (place_of(
            found,
            file,
        ) matches Ok(at) ==> (entry_bytes(found, file, max_bytes) matches Ok(bytes) ==> {
            &&& bytes.len() == found.inventory.entries[at].size
            &&& logical_digest(found, file) == Ok::<Seq<char>, PakErrorView>(
                hex_text(sha256_digest(bytes)),
            )
            &&& found.inventory.entries[at].sha256_is_logical
                ==> found.inventory.entries[at].sha256 == hex_text(sha256_digest(bytes))
            &&& validation.strict() ==> found.inventory.entries[at].sha256_is_logical
        })),
{
    opened_files_stand_apart(path, archive, validation, outside);
    match (opened(path, archive, validation, outside)) {
        Err(_) => {},
        Ok(found) => {
            match (place_of(found, file), entry_bytes(found, file, max_bytes)) {
                (Ok(at), Ok(bytes)) => {
                    let key = sort_key_of(normal_path(file)->Ok_0);
                    slot_parts(found.entries, key);
                    files_are_recorded(path, archive, validation, outside, at);
                    let entry = found.entries[at].1;
                    assert(file_stands(found.entries[at], found.inventory.footer.index_offset));
                    if entry.compressed {
                        decoded_contents_are_whole(
                            archive,
                            entry,
                            output_at(found.outputs, at),
                        );
                    }
                },
                _ => {},
            }
        },
    }
}

/// Whether decoded contents are kept decides nothing else: an archive that opens
/// strictly has the same inventory however it is opened strictly, but for the path
/// under which it was opened.
pub proof fn keeping_contents_does_not_matter(
    path: Seq<char>,
    validation: LogicalValidation,
    other: Seq<char>,
    archive: Seq<u8>,
    outside: OutsideReadingView,
)
    requires
        validation.strict(),
    ensures
        opened(path, archive, validation, outside) matches Ok(found) ==> (opened(
            other,
            archive,
            LogicalValidation::StrictDiscard,
            outside,
        ) matches Ok(discarded) && discarded.inventory == (PakInventoryView {
            source_path: other,
            ..found.inventory
        })),
{
    reveal(opened);
}

/// Every compressed file of an archive that was opened strictly can be decoded.
pub proof fn strictly_opened_files_are_read(
    path: Seq<char>,
    archive: Seq<u8>,
    validation: LogicalValidation,
    outside: OutsideReadingView,
    at: int,
)
    requires
        validation.strict(),
    ensures
        opened(path, archive, validation, outside) matches Ok(found) ==> (0 <= at
            < found.entries.len() && found.entries[at].1.compressed ==> file_bytes(found, at) is Ok),
{
    files_are_recorded(path, archive, validation, outside, at);
}

/// The files of every archive that opens are as the index says.
pub proof fn opened_files_are_sound(
    path: Seq<char>,
    archive: Seq<u8>,
    validation: LogicalValidation,
    outside: OutsideReadingView,
)
    ensures
        opened(path, archive, validation, outside) matches Ok(found) ==> files_sound(found),
{
    opened_files_stand_apart(path, archive, validation, outside);
    match opened(path, archive, validation, outside) {
        Err(_) => {},
        Ok(found) => {
            assert forall|i: int| 0 <= i < found.entries.len() implies #[trigger] file_sound(
                found,
                i,
            ) by {
                files_are_recorded(path, archive, validation, outside, i);
                assert(file_stands(found.entries[i], found.inventory.footer.index_offset));
            }
        },
    }
}

/// Whatever is kept of a decoded file is as long as the file, and its digest is
/// kept with it.
pub proof fn kept_contents_are_whole(archive: PakArchiveView, at: int)
    requires
        contents_sound(archive),
        0 <= at < archive.contents.len(),
    ensures
        archive.contents[at] matches Some(content) ==> {
            &&& archive.entries[at].1.compressed
            &&& content.bytes.len() == archive.entries[at].1.size
            &&& content.sha256 == sha256_digest(content.bytes)
        },
{
    decoded_contents_are_whole(
        archive.bytes,
        archive.entries[at].1,
        output_at(archive.outputs, at),
    );
}

/// What is kept of an archive has no influence on what is read: letting go of all
/// decoded contents changes no read, no mapping and no digest.
pub proof fn releasing_changes_no_read(archive: PakArchiveView, path: Seq<char>, max_bytes: u64)
    ensures
        ({
            let after = PakArchiveView { contents: no_contents(archive.contents.len()), ..archive };
            &&& after.inventory == archive.inventory
            &&& entry_bytes(after, path, max_bytes) == entry_bytes(archive, path, max_bytes)
            &&& mapped_bytes(after, path, max_bytes) == mapped_bytes(archive, path, max_bytes)
            &&& logical_digest(after, path) == logical_digest(archive, path)
            &&& place_of(after, path) matches Ok(at) ==> 0 <= at < archive.contents.len()
                ==> after.contents[at] is None
        }),
{
}

/// Asking for a file changes no later read and no digest of any file.
pub proof fn reading_changes_no_read(
    archive: PakArchiveView,
    at: int,
    path: Seq<char>,
    max_bytes: u64,
)
    ensures
        ({
            let after = filled(archive, at);
            &&& entry_bytes(after, path, max_bytes) == entry_bytes(archive, path, max_bytes)
            &&& mapped_bytes(after, path, max_bytes) == mapped_bytes(archive, path, max_bytes)
            &&& logical_digest(after, path) == logical_digest(archive, path)
        }),
{
}

/// A file that was decoded once is not decoded again: nothing changes when it is
/// asked for once more.
pub proof fn decoded_files_stay(archive: PakArchiveView, at: int)
    requires
        contents_sound(archive),
        0 <= at < archive.contents.len(),
        archive.contents[at] is Some,
    ensures
        filled(archive, at) == archive,
{
    assert(archive.contents.update(at, archive.contents[at]) =~= archive.contents);
}

/// What an opened archive records of a file: its stored bytes lie within the archive
/// and have the recorded digest, and the inventory says the size, and the digest of the
/// logical bytes where it says so.
#[verifier::rlimit(30)]
pub proof fn files_are_recorded(
    path: Seq<char>,
    archive: Seq<u8>,
    validation: LogicalValidation,
    outside: OutsideReadingView,
    at: int,
)
    ensures
        opened(path, archive, validation, outside) matches Ok(found) ==> (0 <= at
            < found.entries.len() ==> {
            let entry = found.entries[at].1;
            &&& found.bytes == archive
            &&& found.outputs == outside.outputs
            &&& payload_fault(archive.len() as int, entry) is None
            &&& entry.stored_sha256 == sha256_digest(payload_of(archive, entry))
            &&& found.inventory.entries[at].size == entry.size
            &&& found.inventory.entries[at].sha256_is_logical == (!entry.compressed
                || validation.strict())
            &&& !entry.compressed || !validation.strict() ==> found.inventory.entries[at].sha256
                == hex_text(entry.stored_sha256)
            &&& entry.compressed && validation.strict() ==> (content_of(found, at) matches Ok(
                content,
            ) && found.inventory.entries[at].sha256 == hex_text(content.sha256))
        }),
{
    opened_steps(path, archive, validation, outside);
    match opened(path, archive, validation, outside) {
        Err(_) => {},
        Ok(found) => {
            if 0 <= at < found.entries.len() {
                let detected = detected_footer(archive)->Ok_0;
                let parsed = indexes_of(archive, detected)->Ok_0;
                let hashes = hashes_from(Seq::empty(), archive, parsed.entries)->Ok_0;
                hashes_are_of_the_payloads(Seq::empty(), archive, parsed.entries, at);
                contents_stand_in_order(
                    Seq::empty(),
                    archive,
                    found.entries,
                    outside.outputs,
                    validation.strict(),
                    at,
                );
                assert(found.entries[at].1.stored_sha256 == hashes[at].sha256);
                assert(payload_of(archive, found.entries[at].1) == payload_of(
                    archive,
                    parsed.entries[at].1,
                ));
            }
        },
    }
}

proof fn wrong_digests_are_accepted_files(
    archive: Seq<u8>,
    version: PakVersion,
    entries: Entries,
    hashes: Seq<PayloadHashView>,
    from: int,
    tags: Seq<Option<Seq<u8>>>,
    maximum_uexp_bytes: u64,
    at: int,
)
    requires
        from <= at < entries.len(),
        digest_fault_from(archive, version, entries, hashes, from, tags, maximum_uexp_bytes) is None,
        hashes[at].sha1 != entries[at].1.payload_sha1,
    ensures
        version == PakVersion::V3,
        stale_accepted(archive, entries, hashes, at, tag_at(tags, at), maximum_uexp_bytes) == Ok::<
            bool,
            PakErrorView,
        >(true),
    decreases at - from,
{
    if from < at {
        wrong_digests_are_accepted_files(
            archive,
            version,
            entries,
            hashes,
            from + 1,
            tags,
            maximum_uexp_bytes,
            at,
        );
    }
}

proof fn footer_is_plain(version: PakVersion, footer_offset: u64, bytes: Seq<u8>)
    ensures
        footer_of(version, footer_offset, bytes) matches Ok(detected) ==> {
            &&& !detected.footer.encrypted_index
            &&& detected.version == version
            &&& detected.footer.version == version.number()
        },
{
}

proof fn detected_footer_is_plain(archive: Seq<u8>)
    ensures
        detected_footer(archive) matches Ok(detected) ==> {
            &&& !detected.footer.encrypted_index
            &&& detected.footer.version == detected.version.number()
        },
{
    let (fitting, other) = candidates(archive, Seq::empty(), None, tried_versions());
    if fitting.len() == 1 {
        let version = fitting[0];
        let start = archive.len() - version.footer_len();
        footer_is_plain(version, start as u64, archive.skip(start));
    }
}

proof fn opened_steps(
    path: Seq<char>,
    archive: Seq<u8>,
    validation: LogicalValidation,
    outside: OutsideReadingView,
)
    ensures
        opened(path, archive, validation, outside) matches Ok(found) ==> {
            let detected = detected_footer(archive)->Ok_0;
            let parsed = indexes_of(archive, detected)->Ok_0;
            let hashes = hashes_from(Seq::empty(), archive, parsed.entries)->Ok_0;
            &&& detected_footer(archive) is Ok
            &&& indexes_of(archive, detected) is Ok
            &&& outside_fault(detected.version, parsed, outside) is None
            &&& hashes_from(Seq::empty(), archive, parsed.entries) is Ok
            &&& digest_fault_from(
                archive,
                detected.version,
                parsed.entries,
                hashes,
                0,
                outside.uexp_tags,
                outside.maximum_uexp_bytes,
            ) is None
            &&& found.entries == with_hashes(parsed.entries, hashes)
            &&& found.bytes == archive
            &&& found.outputs == outside.outputs
            &&& contents_from(
                Seq::empty(),
                archive,
                found.entries,
                outside.outputs,
                validation.strict(),
            ) matches Ok(contents) && found.inventory.entries == inventory_entries(
                found.entries,
                contents,
                validation.strict(),
            )
            &&& grouped(paths_of(found.entries)) is Ok
            &&& found.inventory.footer == detected.footer
            &&& found.inventory.source_path == path
            &&& found.inventory.archive_size == archive.len() as u64
            &&& found.inventory.archive_sha256 == hex_text(sha256_digest(archive))
        },
{
    reveal(opened);
}

proof fn checked_files_are_sound(
    archive: Seq<u8>,
    version: PakVersion,
    entries: Entries,
    hashes: Seq<PayloadHashView>,
    tags: Seq<Option<Seq<u8>>>,
    maximum_uexp_bytes: u64,
    at: int,
)
    requires
        0 <= at < entries.len(),
        entries[at].1.payload_sha1 == entries[at].1.stored_payload_sha1,
        hashes_from(Seq::empty(), archive, entries) == Ok::<Seq<PayloadHashView>, PakErrorView>(
            hashes,
        ),
        digest_fault_from(archive, version, entries, hashes, 0, tags, maximum_uexp_bytes) is None,
    ensures
        ({
            let entry = with_hashes(entries, hashes)[at].1;
            &&& entry.payload_sha1 == sha1_digest(payload_of(archive, entry))
            &&& entry.payload_sha1 != entry.stored_payload_sha1 ==> {
                &&& version == PakVersion::V3
                &&& !entry.compressed
                &&& companion_key(entry.path) is Some
                &&& tag_at(tags, at) == Some(package_tag())
            }
        }),
{
    hashes_are_of_the_payloads(Seq::empty(), archive, entries, at);
    let entry = with_hashes(entries, hashes)[at].1;
    assert(payload_of(archive, entry) == payload_of(archive, entries[at].1));
    if entry.payload_sha1 != entry.stored_payload_sha1 {
        wrong_digests_are_accepted_files(
            archive,
            version,
            entries,
            hashes,
            0,
            tags,
            maximum_uexp_bytes,
            at,
        );
    }
}

/// A damaged file is refused: in every archive that opens, the stored bytes of
/// each file have the digest that the archive records for them. The exception
/// is a `.uexp` file of a version 3 archive that is stored as it is and was
/// found to be a binary asset beside its sound `.uasset` file.
pub proof fn damaged_files_are_refused(
    path: Seq<char>,
    archive: Seq<u8>,
    validation: LogicalValidation,
    outside: OutsideReadingView,
    at: int,
)
    ensures
        opened(path, archive, validation, outside) matches Ok(found) ==> (0 <= at
            < found.entries.len() ==> {
            let entry = found.entries[at].1;
            &&& entry.payload_sha1 == sha1_digest(payload_of(archive, entry))
            &&& entry.payload_sha1 != entry.stored_payload_sha1 ==> {
                &&& found.inventory.footer.version == 3
                &&& !entry.compressed
                &&& companion_key(entry.path) is Some
                &&& tag_at(outside.uexp_tags, at) == Some(package_tag())
            }
        }),
{
    opened_steps(path, archive, validation, outside);
    detected_footer_is_plain(archive);
    match opened(path, archive, validation, outside) {
        Err(_) => {},
        Ok(found) => {
            if 0 <= at < found.entries.len() {
                let detected = detected_footer(archive)->Ok_0;
                let parsed = indexes_of(archive, detected)->Ok_0;
                let hashes = hashes_from(Seq::empty(), archive, parsed.entries)->Ok_0;
                indexed_files_stand(archive, detected);
                assert(file_listed(parsed.entries[at], detected.footer.index_offset));
                checked_files_are_sound(
                    archive,
                    detected.version,
                    parsed.entries,
                    hashes,
                    outside.uexp_tags,
                    outside.maximum_uexp_bytes,
                    at,
                );
            }
        },
    }
}

/// An archive with an encrypted index, of a later version, or that the outside
/// reader reads otherwise is refused; the inventory of an archive that opens
/// records the digest and the size of the whole archive.
#[verifier::rlimit(30)]
pub proof fn unreadable_archives_are_refused(
    path: Seq<char>,
    archive: Seq<u8>,
    validation: LogicalValidation,
    outside: OutsideReadingView,
)
    ensures
        opened(path, archive, validation, outside) matches Ok(found) ==> {
            &&& !found.inventory.footer.encrypted_index
            &&& found.inventory.footer.version <= 11
            &&& outside.reader is Ok
            &&& found.inventory.source_path == path
            &&& found.inventory.archive_size == archive.len() as u64
            &&& found.inventory.archive_sha256 == hex_text(sha256_digest(archive))
        },
{
    opened_steps(path, archive, validation, outside);
    detected_footer_is_plain(archive);
}

} // verus!
