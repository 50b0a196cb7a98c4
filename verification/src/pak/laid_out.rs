//! Archives that are laid out by the format are accepted: a file whose encoded record
//! and whose header say the same is taken into the file list, and a list of such files
//! that share no byte and no name is taken whole.
use vstd::prelude::*;

use super::archive::{
    hashes_from, outside_fault, paths_of, payload_of, work_of, LogicalValidation, OutsideReadingView,
    PayloadHashView,
};
use super::blocks::{
    block_count_for, blocks_fault, chained_from, direct_blocks_from, direct_codec, direct_plan_of,
    header_len, header_size_of, method_fault, method_name, CompressionBlock,
    is_large, DirectDecodeBlock, LegacyEntryView, DIRECT_DECODE_LOGICAL_BLOCK_THRESHOLD,
    DIRECT_DECODE_STORED_BLOCK_THRESHOLD, MAX_COMPRESSION_BLOCKS,
};
use super::decode::{CachedLogicalEntryView, DecoderOutputView};
use super::entries::{
    encoded_entries_from, indexes_fault, indexes_of, listed_paths, placed, primary_index, ranges_fault, record_of, settled, with_encoded,
    Entries, EntriesState, EntryRecordView, OccupiedView, ParsedIndexesView,
    PrimaryIndexView,
};
use super::error::PakErrorView;
use super::footer::{
    decoded_sha1, detected_footer, verified_region, DetectedFooterView, IndexRegionView,
    PakVersion, MIN_PAK_FOOTER_SIZE,
};
use super::index::{
    header_agrees, header_record, local_header, EncodedEntryView, Located,
};
use super::open::{contents_from, digest_fault_from, opened, with_hashes};
use super::paths::{
    component_of, grouped, grouped_from, normal_path, sort_key_of, with_component,
    PackageGroupView,
};
use super::records::{
    header_bytes, headers_are_read_back, holds, is_header, is_record, method_known, record_bytes,
    records_are_read_back, stands_at, sum_of_sizes, RecordForm,
};
use crate::digest::{sha1_digest, sha256_digest};
use crate::ordered::{
    ascending, get, put, put_keeps_order, put_then_get, slot, slot_parts,
    text_order_is_strict_and_total,
};
use crate::text::text_less;

verus! {

/// A file as an archive with encoded records stores it.
#[verifier::ext_equal]
pub struct StoredFile {
    pub record: EncodedEntryView,
    pub form: RecordForm,
    pub payload_sha1: Seq<u8>,
}

/// Blocks of these sizes, one behind the other from `first` on.
pub open spec fn blocks_of(sizes: Seq<u64>, first: int) -> Seq<CompressionBlock> {
    Seq::new(
        sizes.len(),
        |i: int|
            CompressionBlock {
                start: (first + sum_of_sizes(sizes.take(i))) as u64,
                end: (first + sum_of_sizes(sizes.take(i + 1))) as u64,
            },
    )
}

/// How long the header of a file is.
pub open spec fn header_size(version: PakVersion, file: StoredFile) -> int {
    header_len(
        version,
        file.record.compression_method != 0,
        file.record.block_sizes.len() as int,
    )
}

/// The header that stands before a file: it says what the record says, and places the
/// blocks behind itself.
pub open spec fn header_of(version: PakVersion, file: StoredFile) -> LegacyEntryView {
    LegacyEntryView {
        stored_offset: 0,
        compressed_size: file.record.compressed_size,
        uncompressed_size: file.record.uncompressed_size,
        compression_method: file.record.compression_method,
        timestamp: None,
        payload_sha1: file.payload_sha1,
        blocks: blocks_of(file.record.block_sizes, header_size(version, file)),
        flags: 0,
        compression_block_size: file.record.compression_block_size,
    }
}

/// The blocks of a file are as many as its block size asks for.
pub open spec fn blocks_cover(file: StoredFile) -> bool {
    let count = file.record.block_sizes.len();
    let block_size = file.record.compression_block_size;
    &&& file.record.uncompressed_size > 0
    &&& block_size > 0
    &&& (count - 1) * block_size < file.record.uncompressed_size <= count * block_size
}

/// The codec of a method decodes block by block.
pub open spec fn is_in_blocks(codecs: Seq<Option<Seq<char>>>, method: u32) -> bool {
    &&& 0 < method <= codecs.len()
    &&& codecs[method - 1] == Some("LZ4"@) || codecs[method - 1] == Some("Oodle"@)
}

/// A file that the format can store before `limit`.
pub open spec fn is_storable(
    version: PakVersion,
    codecs: Seq<Option<Seq<char>>>,
    limit: u64,
    file: StoredFile,
) -> bool {
    &&& is_record(file.record)
    &&& holds(file.form, file.record)
    &&& !file.record.encrypted
    &&& method_known(codecs, file.record.compression_method)
    &&& file.payload_sha1.len() == 20
    &&& file.record.block_sizes.len() <= MAX_COMPRESSION_BLOCKS
    &&& file.record.block_sizes.len() > 1 ==> file.record.compression_block_size != 0
    &&& is_in_blocks(codecs, file.record.compression_method) ==> blocks_cover(file)
    &&& end_of(version, file) <= limit
}

/// Where a file ends.
pub open spec fn end_of(version: PakVersion, file: StoredFile) -> int {
    file.record.header_offset + header_size(version, file) + file.record.compressed_size
}

/// The record of a file stands among the records, and its header in the archive.
pub open spec fn is_stored(
    version: PakVersion,
    archive: Seq<u8>,
    records: Seq<u8>,
    offset: usize,
    file: StoredFile,
) -> bool {
    &&& stands_at(records, offset as int, record_bytes(file.record, file.form))
    &&& stands_at(
        archive,
        file.record.header_offset as int,
        header_bytes(version, header_of(version, file)),
    )
}

/// An entry of the file list is that of a file.
pub open spec fn lists_file(
    entry: EntryRecordView,
    path: Seq<char>,
    version: PakVersion,
    file: StoredFile,
) -> bool {
    &&& entry.path == path
    &&& entry.header_offset == file.record.header_offset
    &&& entry.header_size == header_size(version, file)
    &&& entry.stored_size == file.record.compressed_size
    &&& entry.size == file.record.uncompressed_size
    &&& entry.compressed == (file.record.compression_method != 0)
    &&& entry.payload_sha1 == file.payload_sha1
}

proof fn sums_grow(sizes: Seq<u64>, i: int)
    requires
        0 <= i < sizes.len(),
    ensures
        sum_of_sizes(sizes.take(i + 1)) == sum_of_sizes(sizes.take(i)) + sizes[i],
{
    assert(sizes.take(i + 1).drop_last() =~= sizes.take(i));
    assert(sizes.take(i + 1).last() == sizes[i]);
}

proof fn sums_stay_within(sizes: Seq<u64>, i: int)
    requires
        0 <= i <= sizes.len(),
    ensures
        0 <= sum_of_sizes(sizes.take(i)) <= sum_of_sizes(sizes),
    decreases sizes.len() - i,
{
    if i < sizes.len() {
        sums_grow(sizes, i);
        sums_stay_within(sizes, i + 1);
    } else {
        assert(sizes.take(i) =~= sizes);
    }
    sums_are_no_less_than_nothing(sizes.take(i));
}

proof fn sums_are_no_less_than_nothing(sizes: Seq<u64>)
    ensures
        sum_of_sizes(sizes) >= 0,
    decreases sizes.len(),
{
    if sizes.len() > 0 {
        sums_are_no_less_than_nothing(sizes.drop_last());
    }
}

/// Each block stands behind the one before it, and has its size.
proof fn blocks_stand(sizes: Seq<u64>, first: int, i: int)
    requires
        0 <= i < sizes.len(),
        0 <= first,
        first + sum_of_sizes(sizes) <= u64::MAX,
    ensures
        ({
            let block = blocks_of(sizes, first)[i];
            &&& block.start == first + sum_of_sizes(sizes.take(i))
            &&& block.end == first + sum_of_sizes(sizes.take(i + 1))
            &&& block.end - block.start == sizes[i]
            &&& first <= block.start
            &&& block.end <= first + sum_of_sizes(sizes)
        }),
{
    sums_grow(sizes, i);
    sums_stay_within(sizes, i);
    sums_stay_within(sizes, i + 1);
}

proof fn blocks_are_chained(sizes: Seq<u64>, first: int, k: int)
    requires
        0 <= k <= sizes.len(),
        0 <= first,
        first + sum_of_sizes(sizes) <= u64::MAX,
    ensures
        chained_from(blocks_of(sizes, first).skip(k), first + sum_of_sizes(sizes.take(k))) == Some(
            first + sum_of_sizes(sizes),
        ),
    decreases sizes.len() - k,
{
    let rest = blocks_of(sizes, first).skip(k);
    if k < sizes.len() {
        blocks_stand(sizes, first, k);
        assert(rest[0] == blocks_of(sizes, first)[k]);
        assert(rest.skip(1) =~= blocks_of(sizes, first).skip(k + 1));
        blocks_are_chained(sizes, first, k + 1);
    } else {
        assert(sizes.take(k) =~= sizes);
    }
}

/// How many bytes the first `k` blocks hold.
spec fn covered_by(k: int, size: int, block_size: int) -> int {
    if k * block_size < size {
        k * block_size
    } else {
        size
    }
}

proof fn direct_blocks_are_found(
    done: Seq<DirectDecodeBlock>,
    large: bool,
    sizes: Seq<u64>,
    first: int,
    k: int,
    base: int,
    size: int,
    block_size: int,
    path: Seq<char>,
)
    requires
        0 <= k <= sizes.len(),
        0 <= first,
        0 <= base,
        base + first + sum_of_sizes(sizes) <= u64::MAX,
        0 < size,
        0 < block_size,
        size <= sizes.len() * block_size,
    ensures
        direct_blocks_from(
            done,
            large,
            covered_by(k, size, block_size),
            blocks_of(sizes, first).skip(k),
            base,
            base + first,
            base + first + sum_of_sizes(sizes),
            size,
            block_size,
            DIRECT_DECODE_LOGICAL_BLOCK_THRESHOLD,
            DIRECT_DECODE_STORED_BLOCK_THRESHOLD,
            path,
        ) matches Ok((blocks, _, output)) && output == size,
    decreases sizes.len() - k,
{
    let rest = blocks_of(sizes, first).skip(k);
    let output = covered_by(k, size, block_size);
    if k < sizes.len() {
        blocks_stand(sizes, first, k);
        assert(rest[0] == blocks_of(sizes, first)[k]);
        assert(rest.skip(1) =~= blocks_of(sizes, first).skip(k + 1));
        let logical = if size - output < block_size {
            size - output
        } else {
            block_size
        };
        assert((k + 1) * block_size == k * block_size + block_size) by (nonlinear_arith);
        assert(output + logical == covered_by(k + 1, size, block_size));
        let start = base + rest[0].start;
        let end = base + rest[0].end;
        direct_blocks_are_found(
            done.push(
                DirectDecodeBlock {
                    stored_start: start as u64,
                    stored_end: end as u64,
                    output_start: output as u64,
                    output_end: (output + logical) as u64,
                },
            ),
            large || is_large(
                logical,
                end - start,
                DIRECT_DECODE_LOGICAL_BLOCK_THRESHOLD,
                DIRECT_DECODE_STORED_BLOCK_THRESHOLD,
            ),
            sizes,
            first,
            k + 1,
            base,
            size,
            block_size,
            path,
        );
    } else {
        assert(output == size);
    }
}

proof fn counts_are_those_asked_for(count: int, size: int, block_size: int)
    requires
        0 < block_size,
        0 < size,
        (count - 1) * block_size < size <= count * block_size,
    ensures
        block_count_for(size, block_size) == count,
{
    let whole = size / block_size;
    let left = size % block_size;
    vstd::arithmetic::div_mod::lemma_fundamental_div_mod(size, block_size);
    assert(size == block_size * whole + left && 0 <= left < block_size);
    if left == 0 {
        assert(whole == count) by (nonlinear_arith)
            requires
                size == block_size * whole,
                0 < block_size,
                (count - 1) * block_size < size <= count * block_size,
        ;
    } else {
        assert(whole + 1 == count) by (nonlinear_arith)
            requires
                size == block_size * whole + left,
                0 < left < block_size,
                (count - 1) * block_size < size <= count * block_size,
        ;
    }
}

proof fn plans_are_made(
    version: PakVersion,
    codecs: Seq<Option<Seq<char>>>,
    limit: u64,
    file: StoredFile,
    path: Seq<char>,
)
    requires
        version.number() >= 10,
        is_storable(version, codecs, limit, file),
    ensures
        direct_plan_of(
            header_of(version, file),
            file.record.header_offset,
            header_size(version, file) as u64,
            version,
            codecs,
            path,
            DIRECT_DECODE_LOGICAL_BLOCK_THRESHOLD,
            DIRECT_DECODE_STORED_BLOCK_THRESHOLD,
        ) is Ok,
{
    let record = file.record;
    let sizes = record.block_sizes;
    if direct_codec(method_name(codecs, record.compression_method)) is Some {
        let first = header_size(version, file);
        let block_size = record.compression_block_size as int;
        counts_are_those_asked_for(
            sizes.len() as int,
            record.uncompressed_size as int,
            block_size,
        );
        direct_blocks_are_found(
            Seq::empty(),
            false,
            sizes,
            first,
            0,
            record.header_offset as int,
            record.uncompressed_size as int,
            block_size,
            path,
        );
        assert(blocks_of(sizes, first).skip(0) =~= blocks_of(sizes, first));
        assert(0 * block_size == 0) by (nonlinear_arith);
    }
}

proof fn headers_are_accepted(
    version: PakVersion,
    codecs: Seq<Option<Seq<char>>>,
    limit: u64,
    archive: Seq<u8>,
    file: StoredFile,
    path: Seq<char>,
)
    requires
        version.number() >= 10,
        is_storable(version, codecs, limit, file),
        archive.len() <= usize::MAX,
        stands_at(
            archive,
            file.record.header_offset as int,
            header_bytes(version, header_of(version, file)),
        ),
    ensures
        local_header(
            archive,
            version,
            codecs,
            path,
            file.record,
            header_size(version, file) as u64,
        ) == Ok::<LegacyEntryView, PakErrorView>(header_of(version, file)),
{
    let record = file.record;
    let sizes = record.block_sizes;
    let first = header_size(version, file);
    let header = header_of(version, file);
    let context = "file header"@;
    let at = record.header_offset as int;
    assert(is_header(version, codecs, header));
    headers_are_read_back(version, codecs, path, archive, at, header, context);
    let data = archive.subrange(at, at + first);
    assert(data.subrange(0, first) =~= data);
    headers_are_read_back(version, codecs, path, data, 0, header, context);
    if record.compression_method != 0 {
        blocks_are_chained(sizes, first, 0);
        assert(sizes.take(0) =~= Seq::<u64>::empty());
        assert(blocks_of(sizes, first).skip(0) =~= blocks_of(sizes, first));
    }
    assert(blocks_fault(header, record.header_offset, first as u64, version, path) is None);
    assert(header_record(
        archive,
        version,
        codecs,
        path,
        record.header_offset,
        first as u64,
        context,
    ) == Ok::<LegacyEntryView, PakErrorView>(header));
    assert forall|i: int| 0 <= i < header.blocks.len() implies #[trigger] header.blocks[i].end
        - header.blocks[i].start == sizes[i] by {
        blocks_stand(sizes, first, i);
    }
    assert(header_agrees(header, record));
}

/// A file that is laid out by the format is taken into the file list.
pub proof fn laid_out_files_are_taken(
    state: EntriesState,
    archive: Seq<u8>,
    detected: DetectedFooterView,
    records: Seq<u8>,
    path: Seq<char>,
    offset: usize,
    file: StoredFile,
)
    requires
        detected.version.number() >= 10,
        archive.len() <= usize::MAX,
        records.len() <= usize::MAX,
        is_storable(
            detected.version,
            detected.compression_codecs,
            detected.footer.index_offset,
            file,
        ),
        is_stored(detected.version, archive, records, offset, file),
        get(state.entries, sort_key_of(path)) is None,
    ensures
        with_encoded(state, archive, detected, records, path, offset) matches Ok(next) && exists|
            entry: EntryRecordView,
        | #[trigger]
            lists_file(entry, path, detected.version, file) && next.entries == put(
                state.entries,
                sort_key_of(path),
                entry,
            ) && next.occupied == placed(
                state.occupied,
                OccupiedView {
                    start: file.record.header_offset,
                    end: end_of(detected.version, file) as u64,
                    path,
                },
            ),
{
    reveal(with_encoded);
    let version = detected.version;
    let codecs = detected.compression_codecs;
    let record = file.record;
    let size = header_size(version, file) as u64;
    let limit = detected.footer.index_offset;
    records_are_read_back(records, offset as int, record, file.form, path);
    headers_are_accepted(version, codecs, limit, archive, file, path);
    plans_are_made(version, codecs, limit, file, path);
    assert(method_fault(codecs, record.compression_method, path) is None);
    assert(header_size_of(
        version,
        record.compression_method != 0,
        record.block_sizes.len() as u32,
    ) == Ok::<u64, PakErrorView>(size));
    let plan = direct_plan_of(
        header_of(version, file),
        record.header_offset,
        size,
        version,
        codecs,
        path,
        DIRECT_DECODE_LOGICAL_BLOCK_THRESHOLD,
        DIRECT_DECODE_STORED_BLOCK_THRESHOLD,
    )->Ok_0;
    let entry = record_of(
        path,
        record.header_offset,
        size,
        record.compressed_size,
        record.uncompressed_size,
        record.compression_method,
        codecs,
        plan,
        file.payload_sha1,
    );
    assert(lists_file(entry, path, version, file));
}

/// Two ranges share no byte.
pub open spec fn share_nothing(left: OccupiedView, right: OccupiedView) -> bool {
    left.end <= right.start || right.end <= left.start
}

/// Ranges stand in the order of their starts and share no byte.
spec fn stand_apart(list: Seq<OccupiedView>) -> bool {
    &&& forall|i: int| 0 <= i < list.len() ==> (#[trigger] list[i]).start < list[i].end
    &&& forall|i: int, j: int|
        0 <= i < j < list.len() ==> (#[trigger] list[i]).start <= (#[trigger] list[j]).start
            && share_nothing(list[i], list[j])
}

proof fn placing_inserts(list: Seq<OccupiedView>, item: OccupiedView) -> (at: int)
    requires
        stand_apart(list),
    ensures
        0 <= at <= list.len(),
        placed(list, item) == list.insert(at, item),
        forall|i: int| 0 <= i < at ==> (#[trigger] list[i]).start <= item.start,
        forall|i: int| at <= i < list.len() ==> (#[trigger] list[i]).start > item.start,
    decreases list.len(),
{
    if list.len() == 0 || list.last().start <= item.start {
        let at = list.len() as int;
        assert(list.push(item) =~= list.insert(at, item));
        assert forall|i: int| 0 <= i < at implies (#[trigger] list[i]).start <= item.start by {
            assert(list[i].start <= list[list.len() - 1].start);
        }
        at
    } else {
        let front = list.drop_last();
        assert forall|i: int, j: int| 0 <= i < j < front.len() implies (#[trigger] front[i]).start
            <= (#[trigger] front[j]).start && share_nothing(front[i], front[j]) by {
            assert(front[i] == list[i] && front[j] == list[j]);
        }
        assert forall|i: int| 0 <= i < front.len() implies (#[trigger] front[i]).start
            < front[i].end by {
            assert(front[i] == list[i]);
        }
        let at = placing_inserts(front, item);
        assert(front.insert(at, item).push(list.last()) =~= list.insert(at, item));
        assert forall|i: int| 0 <= i < at implies (#[trigger] list[i]).start <= item.start by {
            assert(front[i] == list[i]);
        }
        assert forall|i: int| at <= i < list.len() implies (#[trigger] list[i]).start
            > item.start by {
            if i < front.len() {
                assert(front[i] == list[i]);
            }
        }
        at
    }
}

proof fn placing_keeps_apart(list: Seq<OccupiedView>, item: OccupiedView)
    requires
        stand_apart(list),
        item.start < item.end,
        forall|i: int| 0 <= i < list.len() ==> share_nothing(#[trigger] list[i], item),
    ensures
        stand_apart(placed(list, item)),
        forall|i: int|
            0 <= i < placed(list, item).len() ==> (#[trigger] placed(list, item)[i]) == item
                || list.contains(placed(list, item)[i]),
{
    let at = placing_inserts(list, item);
    let after = placed(list, item);
    assert forall|i: int| 0 <= i < after.len() implies (#[trigger] after[i]) == item
        || list.contains(after[i]) by {
        if i < at {
            assert(after[i] == list[i]);
        } else if i > at {
            assert(after[i] == list[i - 1]);
        }
    }
    assert forall|i: int| 0 <= i < after.len() implies (#[trigger] after[i]).start
        < after[i].end by {
        if i < at {
            assert(after[i] == list[i]);
        } else if i > at {
            assert(after[i] == list[i - 1]);
        }
    }
    assert forall|i: int, j: int| 0 <= i < j < after.len() implies (#[trigger] after[i]).start <= (
    #[trigger] after[j]).start && share_nothing(after[i], after[j]) by {
        let left = if i < at {
            i
        } else {
            i - 1
        };
        let right = if j < at {
            j
        } else {
            j - 1
        };
        if i != at {
            assert(after[i] == list[left]);
        }
        if j != at {
            assert(after[j] == list[right]);
        }
    }
}

proof fn apart_ranges_are_accepted(list: Seq<OccupiedView>)
    requires
        stand_apart(list),
    ensures
        ranges_fault(list) is None,
    decreases list.len(),
{
    if list.len() >= 2 {
        assert(list[0].start <= list[1].start && share_nothing(list[0], list[1]));
        let rest = list.skip(1);
        assert forall|i: int| 0 <= i < rest.len() implies (#[trigger] rest[i]).start
            < rest[i].end by {
            assert(rest[i] == list[i + 1]);
        }
        assert forall|i: int, j: int| 0 <= i < j < rest.len() implies (#[trigger] rest[i]).start
            <= (#[trigger] rest[j]).start && share_nothing(rest[i], rest[j]) by {
            assert(rest[i] == list[i + 1] && rest[j] == list[j + 1]);
        }
        apart_ranges_are_accepted(rest);
    }
}

/// The bytes of an archive that a file takes.
pub open spec fn range_taken(version: PakVersion, path: Seq<char>, file: StoredFile) -> OccupiedView {
    OccupiedView { start: file.record.header_offset, end: end_of(version, file) as u64, path }
}

/// All files are stored, under names that differ in more than letter case, and share no
/// byte.
pub open spec fn are_laid_out(
    archive: Seq<u8>,
    detected: DetectedFooterView,
    records: Seq<u8>,
    paths: Seq<Located>,
    files: Seq<StoredFile>,
) -> bool {
    let version = detected.version;
    &&& files.len() == paths.len()
    &&& forall|i: int|
        0 <= i < files.len() ==> is_storable(
            version,
            detected.compression_codecs,
            detected.footer.index_offset,
            #[trigger] files[i],
        ) && is_stored(version, archive, records, paths[i].1, files[i])
    &&& forall|i: int, j: int|
        0 <= i < j < files.len() ==> sort_key_of((#[trigger] paths[i]).0) != sort_key_of(
            (#[trigger] paths[j]).0,
        ) && share_nothing(
            range_taken(version, paths[i].0, files[i]),
            range_taken(version, paths[j].0, files[j]),
        )
}

/// The file list has the first `count` files, each under its name, and nothing else.
spec fn has_listed(
    state: EntriesState,
    version: PakVersion,
    paths: Seq<Located>,
    files: Seq<StoredFile>,
    count: int,
) -> bool {
    &&& ascending(state.entries)
    &&& state.entries.len() == count
    &&& stand_apart(state.occupied)
    &&& forall|i: int|
        0 <= i < count ==> (get(
            state.entries,
            sort_key_of((#[trigger] paths[i]).0),
        ) matches Some(entry) && lists_file(entry, paths[i].0, version, files[i]))
    &&& forall|k: int|
        0 <= k < state.occupied.len() ==> exists|i: int|
            0 <= i < count && #[trigger] state.occupied[k] == range_taken(
                version,
                (#[trigger] paths[i]).0,
                files[i],
            )
    &&& forall|i: int|
        count <= i < paths.len() ==> get(state.entries, sort_key_of((#[trigger] paths[i]).0)) is None
    &&& forall|k: int|
        0 <= k < state.entries.len() ==> exists|i: int|
            0 <= i < count && is_entry_of(#[trigger] state.entries[k], version, #[trigger] paths[i], files[i])
}

/// An item of the file list is that of a file, under its name.
pub open spec fn is_entry_of(
    item: (Seq<char>, EntryRecordView),
    version: PakVersion,
    path: Located,
    file: StoredFile,
) -> bool {
    &&& item.0 == sort_key_of(path.0)
    &&& lists_file(item.1, path.0, version, file)
}

/// Each item of the file list is that of one of the files.
pub open spec fn lists_only(
    entries: Entries,
    version: PakVersion,
    paths: Seq<Located>,
    files: Seq<StoredFile>,
) -> bool {
    forall|k: int|
        0 <= k < entries.len() ==> exists|i: int|
            0 <= i < paths.len() && is_entry_of(#[trigger] entries[k], version, #[trigger] paths[i], files[i])
}

proof fn one_more_file_is_listed(
    state: EntriesState,
    archive: Seq<u8>,
    detected: DetectedFooterView,
    records: Seq<u8>,
    paths: Seq<Located>,
    files: Seq<StoredFile>,
    count: int,
)
    requires
        detected.version.number() >= 10,
        archive.len() <= usize::MAX,
        records.len() <= usize::MAX,
        are_laid_out(archive, detected, records, paths, files),
        0 <= count < paths.len(),
        has_listed(state, detected.version, paths, files, count),
    ensures
        with_encoded(state, archive, detected, records, paths[count].0, paths[count].1) matches Ok(
            next,
        ) && has_listed(next, detected.version, paths, files, count + 1),
{
    let version = detected.version;
    let path = paths[count].0;
    let key = sort_key_of(path);
    let file = files[count];
    let range = range_taken(version, path, file);
    assert(is_stored(version, archive, records, paths[count].1, file));
    laid_out_files_are_taken(state, archive, detected, records, path, paths[count].1, file);
    let next = with_encoded(state, archive, detected, records, path, paths[count].1)->Ok_0;
    let entry = choose|entry: EntryRecordView| #[trigger]
        lists_file(entry, path, version, file) && next.entries == put(state.entries, key, entry)
            && next.occupied == placed(state.occupied, range);
    put_keeps_order(state.entries, key, entry);
    assert forall|k: int| 0 <= k < state.occupied.len() implies share_nothing(
        #[trigger] state.occupied[k],
        range,
    ) by {
        let i = choose|i: int|
            0 <= i < count && #[trigger] state.occupied[k] == range_taken(
                version,
                (#[trigger] paths[i]).0,
                files[i],
            );
        assert(sort_key_of(paths[i].0) != sort_key_of(paths[count].0));
    }
    placing_keeps_apart(state.occupied, range);
    slot_parts(state.entries, key);
    assert(next.entries.len() == count + 1);
    assert forall|i: int| 0 <= i < count + 1 implies (get(
        next.entries,
        sort_key_of((#[trigger] paths[i]).0),
    ) matches Some(found) && lists_file(found, paths[i].0, version, files[i])) by {
        put_then_get(state.entries, key, entry, sort_key_of(paths[i].0));
        if i < count {
            assert(sort_key_of(paths[i].0) != sort_key_of(paths[count].0));
        }
    }
    assert forall|i: int| count + 1 <= i < paths.len() implies get(
        next.entries,
        sort_key_of((#[trigger] paths[i]).0),
    ) is None by {
        put_then_get(state.entries, key, entry, sort_key_of(paths[i].0));
        assert(sort_key_of(paths[count].0) != sort_key_of(paths[i].0));
    }
    let at = slot(state.entries, key);
    assert(next.entries == state.entries.insert(at, (key, entry)));
    assert forall|k: int| 0 <= k < next.entries.len() implies exists|i: int|
        0 <= i < count + 1 && is_entry_of(
            #[trigger] next.entries[k],
            version,
            #[trigger] paths[i],
            files[i],
        ) by {
        if k == at {
            assert(is_entry_of(next.entries[k], version, paths[count], files[count]));
        } else {
            let q = if k < at {
                k
            } else {
                k - 1
            };
            assert(next.entries[k] == state.entries[q]);
            let i = choose|i: int|
                0 <= i < count && is_entry_of(
                    #[trigger] state.entries[q],
                    version,
                    #[trigger] paths[i],
                    files[i],
                );
            assert(is_entry_of(next.entries[k], version, paths[i], files[i]));
        }
    }
    assert forall|k: int| 0 <= k < next.occupied.len() implies exists|i: int|
        0 <= i < count + 1 && #[trigger] next.occupied[k] == range_taken(
            version,
            (#[trigger] paths[i]).0,
            files[i],
        ) by {
        let item = next.occupied[k];
        if item == range {
            assert(item == range_taken(version, paths[count].0, files[count]));
        } else {
            assert(state.occupied.contains(item));
            let q = choose|q: int| 0 <= q < state.occupied.len() && state.occupied[q] == item;
            let i = choose|i: int|
                0 <= i < count && #[trigger] state.occupied[q] == range_taken(
                    version,
                    (#[trigger] paths[i]).0,
                    files[i],
                );
            assert(item == range_taken(version, paths[i].0, files[i]));
        }
    }
}

proof fn rest_is_listed(
    state: EntriesState,
    archive: Seq<u8>,
    detected: DetectedFooterView,
    records: Seq<u8>,
    paths: Seq<Located>,
    files: Seq<StoredFile>,
    count: int,
)
    requires
        detected.version.number() >= 10,
        archive.len() <= usize::MAX,
        records.len() <= usize::MAX,
        are_laid_out(archive, detected, records, paths, files),
        0 <= count <= paths.len(),
        has_listed(state, detected.version, paths, files, count),
    ensures
        encoded_entries_from(state, archive, detected, records, paths.skip(count)) matches Ok(all)
            && has_listed(all, detected.version, paths, files, paths.len() as int),
    decreases paths.len() - count,
{
    if count < paths.len() {
        one_more_file_is_listed(state, archive, detected, records, paths, files, count);
        let next = with_encoded(
            state,
            archive,
            detected,
            records,
            paths[count].0,
            paths[count].1,
        )->Ok_0;
        assert(paths.skip(count)[0] == paths[count]);
        assert(paths.skip(count).skip(1) =~= paths.skip(count + 1));
        rest_is_listed(next, archive, detected, records, paths, files, count + 1);
    }
}

/// Files that are laid out by the format are all taken into the file list, each under
/// its name with its sizes, its place and its digest, and nothing else is.
pub proof fn laid_out_lists_are_taken(
    archive: Seq<u8>,
    detected: DetectedFooterView,
    records: Seq<u8>,
    paths: Seq<Located>,
    files: Seq<StoredFile>,
)
    requires
        detected.version.number() >= 10,
        archive.len() <= usize::MAX,
        records.len() <= usize::MAX,
        are_laid_out(archive, detected, records, paths, files),
    ensures
        encoded_entries_from(
            EntriesState { entries: Seq::empty(), occupied: Seq::empty() },
            archive,
            detected,
            records,
            paths,
        ) matches Ok(all) && (settled(all) matches Ok(entries) && entries.len() == paths.len()
            && ascending(entries) && lists_only(entries, detected.version, paths, files) && forall|
            i: int,
        |
            0 <= i < paths.len() ==> (get(
                entries,
                sort_key_of((#[trigger] paths[i]).0),
            ) matches Some(entry) && lists_file(entry, paths[i].0, detected.version, files[i]))),
{
    let none = EntriesState { entries: Seq::empty(), occupied: Seq::empty() };
    assert(has_listed(none, detected.version, paths, files, 0));
    assert(paths.skip(0) =~= paths);
    rest_is_listed(none, archive, detected, records, paths, files, 0);
    let all = encoded_entries_from(none, archive, detected, records, paths)->Ok_0;
    apart_ranges_are_accepted(all.occupied);
}

/// An archive whose list of names can be read and whose files are laid out by the format
/// has a file list: an entry for each file and no other.
pub proof fn laid_out_archives_have_a_list(
    archive: Seq<u8>,
    detected: DetectedFooterView,
    primary: PrimaryIndexView,
    paths: Seq<Located>,
    files: Seq<StoredFile>,
)
    requires
        detected.version.number() >= 10,
        detected.footer.version == detected.version.number(),
        archive.len() <= usize::MAX,
        primary.records.len() <= usize::MAX,
        reads_names(archive, detected, primary, paths),
        are_laid_out(archive, detected, primary.records, paths, files),
    ensures
        indexes_of(archive, detected) matches Ok(parsed) && parsed.mount_point
            == primary.mount_point && parsed.path_hash_seed == primary.path_hash_seed
            && parsed.entries.len() == paths.len() && ascending(parsed.entries) && lists_only(
            parsed.entries,
            detected.version,
            paths,
            files,
        ) && forall|i: int|
            0 <= i < paths.len() ==> (get(
                parsed.entries,
                sort_key_of((#[trigger] paths[i]).0),
            ) matches Some(entry) && lists_file(entry, paths[i].0, detected.version, files[i])),
{
    laid_out_lists_are_taken(archive, detected, primary.records, paths, files);
}

/// The list of names of an archive can be read: its three regions have the digests that
/// they should have, and the names that they give agree.
pub open spec fn reads_names(
    archive: Seq<u8>,
    detected: DetectedFooterView,
    primary: PrimaryIndexView,
    paths: Seq<Located>,
) -> bool {
    let footer = detected.footer;
    &&& decoded_sha1(footer.index_sha1) matches Ok(expected_sha1) && (verified_region(
        archive,
        IndexRegionView {
            name: "primary index"@,
            offset: footer.index_offset,
            size: footer.index_size,
            expected_sha1,
        },
        detected.footer_offset,
    ) matches Ok(data) && primary_index(data, footer.version) == Ok::<
        PrimaryIndexView,
        PakErrorView,
    >(primary))
    &&& indexes_fault(detected, primary) is None
    &&& listed_paths(archive, detected, primary) == Ok::<Seq<Located>, PakErrorView>(paths)
}

/// The paths may stand in a Pak.
pub open spec fn names_are_accepted(paths: Seq<Located>) -> bool {
    forall|i: int| 0 <= i < paths.len() ==> normal_path((#[trigger] paths[i]).0) is Ok
}

/// The header of each file holds the digest of its stored bytes.
pub open spec fn digests_are_right(
    archive: Seq<u8>,
    version: PakVersion,
    files: Seq<StoredFile>,
) -> bool {
    forall|i: int|
        0 <= i < files.len() ==> {
            let start = (#[trigger] files[i]).record.header_offset + header_size(version, files[i]);
            files[i].payload_sha1 == sha1_digest(
                archive.subrange(start, start + files[i].record.compressed_size),
            )
        }
}

/// The other reader sees the same archive: its version, its base folder, its seed and
/// its names.
pub open spec fn is_confirmed(
    outside: OutsideReadingView,
    version: PakVersion,
    primary: PrimaryIndexView,
    paths: Seq<Located>,
) -> bool {
    &&& outside.oodle_failure is None
    &&& outside.reader matches Ok(reading) && {
        &&& reading.version == version
        &&& !reading.encrypted_index
        &&& reading.mount_point == primary.mount_point
        &&& reading.path_hash_seed == Some(primary.path_hash_seed)
        &&& forall|path: Seq<char>| #[trigger]
            reading.files.contains(path) <==> exists|i: int|
                0 <= i < paths.len() && (#[trigger] paths[i]).0 == path
    }
}

proof fn stored_bytes_are_hashed(
    done: Seq<PayloadHashView>,
    archive: Seq<u8>,
    rest: Entries,
    limit: u64,
)
    requires
        limit <= archive.len(),
        forall|k: int|
            0 <= k < rest.len() ==> (#[trigger] rest[k]).1.header_offset + rest[k].1.header_size
                + rest[k].1.stored_size <= limit,
    ensures
        hashes_from(done, archive, rest) matches Ok(hashes) && hashes.len() == done.len()
            + rest.len() && hashes.take(done.len() as int) == done && forall|k: int|
            0 <= k < rest.len() ==> hashes[done.len() + k].sha1 == sha1_digest(
                payload_of(archive, (#[trigger] rest[k]).1),
            ),
    decreases rest.len(),
{
    if rest.len() == 0 {
        assert(done.take(done.len() as int) =~= done);
    } else {
        let payload = payload_of(archive, rest[0].1);
        let item = PayloadHashView { sha1: sha1_digest(payload), sha256: sha256_digest(payload) };
        let more = done.push(item);
        let tail = rest.skip(1);
        assert forall|k: int| 0 <= k < tail.len() implies (#[trigger] tail[k]).1.header_offset
            + tail[k].1.header_size + tail[k].1.stored_size <= limit by {
            assert(tail[k] == rest[k + 1]);
        }
        stored_bytes_are_hashed(more, archive, tail, limit);
        let hashes = hashes_from(more, archive, tail)->Ok_0;
        assert(hashes.take(more.len() as int).take(done.len() as int) =~= hashes.take(
            done.len() as int,
        ));
        assert(more.take(done.len() as int) =~= done);
        assert forall|k: int| 0 <= k < rest.len() implies hashes[done.len() + k].sha1
            == sha1_digest(payload_of(archive, (#[trigger] rest[k]).1)) by {
            if k == 0 {
                assert(hashes.take(more.len() as int)[done.len() as int] == item);
            } else {
                assert(tail[k - 1] == rest[k]);
            }
        }
    }
}

proof fn right_digests_are_accepted(
    archive: Seq<u8>,
    version: PakVersion,
    entries: Entries,
    hashes: Seq<PayloadHashView>,
    at: int,
    outside: OutsideReadingView,
)
    requires
        0 <= at,
        forall|k: int|
            at <= k < entries.len() ==> hashes[k].sha1 == (#[trigger] entries[k]).1.payload_sha1,
    ensures
        digest_fault_from(
            archive,
            version,
            entries,
            hashes,
            at,
            outside.uexp_tags,
            outside.maximum_uexp_bytes,
        ) is None,
    decreases entries.len() - at,
{
    if at < entries.len() {
        assert(hashes[at].sha1 == entries[at].1.payload_sha1);
        right_digests_are_accepted(archive, version, entries, hashes, at + 1, outside);
    }
}

proof fn nothing_is_decoded(
    done: Seq<Option<CachedLogicalEntryView>>,
    archive: Seq<u8>,
    entries: Entries,
    outputs: Seq<DecoderOutputView>,
    strict: bool,
)
    requires
        strict ==> forall|k: int| 0 <= k < entries.len() ==> !(#[trigger] entries[k]).1.compressed,
    ensures
        contents_from(done, archive, entries, outputs, strict) is Ok,
    decreases entries.len() - done.len(),
{
    if done.len() < entries.len() {
        nothing_is_decoded(done.push(None), archive, entries, outputs, strict);
    }
}

proof fn distinct_names_are_grouped(
    packages: Seq<(Seq<char>, PackageGroupView)>,
    loose: Seq<(Seq<char>, Seq<char>)>,
    met: Seq<(Seq<char>, Seq<char>)>,
    rest: Seq<Seq<char>>,
)
    requires
        ascending(met),
        forall|i: int|
            0 <= i < rest.len() ==> normal_path(#[trigger] rest[i]) is Ok && get(
                met,
                sort_key_of(rest[i]),
            ) is None,
        forall|i: int, j: int|
            0 <= i < j < rest.len() ==> sort_key_of(#[trigger] rest[i]) != sort_key_of(
                #[trigger] rest[j],
            ),
    ensures
        grouped_from(packages, loose, met, rest) is Ok,
    decreases rest.len(),
{
    if rest.len() > 0 {
        let path = rest[0];
        let key = sort_key_of(path);
        let tail = rest.skip(1);
        let more = put(met, key, path);
        assert(normal_path(rest[0]) is Ok);
        put_keeps_order(met, key, path);
        assert forall|i: int| 0 <= i < tail.len() implies normal_path(#[trigger] tail[i]) is Ok
            && get(more, sort_key_of(tail[i])) is None by {
            assert(tail[i] == rest[i + 1]);
            assert(sort_key_of(rest[0]) != sort_key_of(rest[i + 1]));
            put_then_get(met, key, path, sort_key_of(tail[i]));
        }
        assert forall|i: int, j: int| 0 <= i < j < tail.len() implies sort_key_of(
            #[trigger] tail[i],
        ) != sort_key_of(#[trigger] tail[j]) by {
            assert(tail[i] == rest[i + 1] && tail[j] == rest[j + 1]);
        }
        match component_of(path) {
            Some((component, base)) => {
                distinct_names_are_grouped(
                    with_component(packages, base, component, path),
                    loose,
                    more,
                    tail,
                );
            },
            None => {
                distinct_names_are_grouped(packages, put(loose, key, path), more, tail);
            },
        }
    }
}

proof fn listed_names_are_grouped(
    entries: Entries,
    version: PakVersion,
    paths: Seq<Located>,
    files: Seq<StoredFile>,
)
    requires
        ascending(entries),
        lists_only(entries, version, paths, files),
        names_are_accepted(paths),
    ensures
        grouped(paths_of(entries)) is Ok,
{
    let names = paths_of(entries);
    assert forall|k: int| 0 <= k < names.len() implies normal_path(#[trigger] names[k]) is Ok
        && sort_key_of(names[k]) == entries[k].0 by {
        let i = choose|i: int|
            0 <= i < paths.len() && is_entry_of(
                #[trigger] entries[k],
                version,
                #[trigger] paths[i],
                files[i],
            );
        assert(names[k] == paths[i].0);
    }
    assert forall|i: int, j: int| 0 <= i < j < names.len() implies sort_key_of(#[trigger] names[i])
        != sort_key_of(#[trigger] names[j]) by {
        assert(text_less(entries[i].0, entries[j].0));
        text_order_is_strict_and_total(entries[i].0, entries[i].0, entries[i].0);
    }
    distinct_names_are_grouped(Seq::empty(), Seq::empty(), Seq::empty(), names);
}

proof fn listed_names_are_the_given(
    entries: Entries,
    version: PakVersion,
    paths: Seq<Located>,
    files: Seq<StoredFile>,
    path: Seq<char>,
)
    requires
        lists_only(entries, version, paths, files),
        forall|i: int|
            0 <= i < paths.len() ==> (get(
                entries,
                sort_key_of((#[trigger] paths[i]).0),
            ) matches Some(entry) && lists_file(entry, paths[i].0, version, files[i])),
    ensures
        paths_of(entries).contains(path) <==> exists|i: int|
            0 <= i < paths.len() && (#[trigger] paths[i]).0 == path,
{
    let names = paths_of(entries);
    if names.contains(path) {
        let k = choose|k: int| 0 <= k < names.len() && names[k] == path;
        let i = choose|i: int|
            0 <= i < paths.len() && is_entry_of(
                #[trigger] entries[k],
                version,
                #[trigger] paths[i],
                files[i],
            );
        assert(paths[i].0 == path);
    }
    if exists|i: int| 0 <= i < paths.len() && (#[trigger] paths[i]).0 == path {
        let i = choose|i: int| 0 <= i < paths.len() && (#[trigger] paths[i]).0 == path;
        let key = sort_key_of(path);
        slot_parts(entries, key);
        let k = slot(entries, key);
        assert(lists_file(get(entries, key)->0, path, version, files[i]));
        assert(names[k] == path);
    }
}

/// An archive is opened whose list of names can be read, whose files are laid out by the
/// format with the digests of their bytes, and which the other reader sees likewise;
/// where all of it is verified, for files that are stored as they are.
pub proof fn laid_out_archives_are_opened(
    path: Seq<char>,
    archive: Seq<u8>,
    validation: LogicalValidation,
    outside: OutsideReadingView,
    detected: DetectedFooterView,
    primary: PrimaryIndexView,
    paths: Seq<Located>,
    files: Seq<StoredFile>,
)
    requires
        MIN_PAK_FOOTER_SIZE <= archive.len() <= usize::MAX,
        primary.records.len() <= usize::MAX,
        detected_footer(archive) == Ok::<DetectedFooterView, PakErrorView>(detected),
        detected.version.number() >= 10,
        detected.footer.version == detected.version.number(),
        detected.footer.index_offset <= archive.len(),
        reads_names(archive, detected, primary, paths),
        names_are_accepted(paths),
        are_laid_out(archive, detected, primary.records, paths, files),
        digests_are_right(archive, detected.version, files),
        is_confirmed(outside, detected.version, primary, paths),
        work_of(
            archive.len() as u64,
            indexes_of(archive, detected)->Ok_0.entries,
            validation,
        ) is Ok,
        validation.strict() ==> forall|i: int|
            0 <= i < files.len() ==> (#[trigger] files[i]).record.compression_method == 0,
    ensures
        opened(path, archive, validation, outside) matches Ok(found) && found.bytes == archive
            && found.inventory.mount_point == primary.mount_point && found.entries.len()
            == paths.len(),
{
    let version = detected.version;
    let limit = detected.footer.index_offset;
    laid_out_archives_have_a_list(archive, detected, primary, paths, files);
    let parsed = indexes_of(archive, detected)->Ok_0;
    let entries = parsed.entries;
    confirmed_lists_have_no_fault(outside, version, primary, parsed, paths, files);
    listed_files_are_as_stored(archive, detected, entries, paths, files);
    stored_bytes_are_hashed(Seq::empty(), archive, entries, limit);
    let hashes = hashes_from(Seq::empty(), archive, entries)->Ok_0;
    assert forall|k: int| 0 <= k < entries.len() implies hashes[k].sha1 == (
    #[trigger] entries[k]).1.payload_sha1 by {
        assert(hashes[0 + k].sha1 == sha1_digest(payload_of(archive, entries[k].1)));
    }
    right_digests_are_accepted(archive, version, entries, hashes, 0, outside);
    let kept = with_hashes(entries, hashes);
    if validation.strict() {
        assert forall|k: int| 0 <= k < kept.len() implies !(#[trigger] kept[k]).1.compressed by {
            let i = choose|i: int|
                0 <= i < paths.len() && is_entry_of(
                    #[trigger] entries[k],
                    version,
                    #[trigger] paths[i],
                    files[i],
                );
            assert(files[i].record.compression_method == 0);
        }
    }
    nothing_is_decoded(Seq::empty(), archive, kept, outside.outputs, validation.strict());
    assert(paths_of(kept) =~= paths_of(entries));
    listed_names_are_grouped(entries, version, paths, files);
    opening_comes_together(path, archive, validation, outside, detected, parsed, hashes);
}

proof fn confirmed_lists_have_no_fault(
    outside: OutsideReadingView,
    version: PakVersion,
    primary: PrimaryIndexView,
    parsed: ParsedIndexesView,
    paths: Seq<Located>,
    files: Seq<StoredFile>,
)
    requires
        is_confirmed(outside, version, primary, paths),
        parsed.mount_point == primary.mount_point,
        parsed.path_hash_seed == primary.path_hash_seed,
        lists_only(parsed.entries, version, paths, files),
        forall|i: int|
            0 <= i < paths.len() ==> (get(
                parsed.entries,
                sort_key_of((#[trigger] paths[i]).0),
            ) matches Some(entry) && lists_file(entry, paths[i].0, version, files[i])),
    ensures
        outside_fault(version, parsed, outside) is None,
{
    let entries = parsed.entries;
    let reading = outside.reader->Ok_0;
    let theirs = reading.files.to_set();
    let ours = paths_of(entries).to_set();
    assert forall|name: Seq<char>| theirs.contains(name) <==> ours.contains(name) by {
        listed_names_are_the_given(entries, version, paths, files, name);
        assert(theirs.contains(name) <==> reading.files.contains(name));
        assert(ours.contains(name) <==> paths_of(entries).contains(name));
    }
    assert(theirs =~= ours);
}

proof fn listed_files_are_as_stored(
    archive: Seq<u8>,
    detected: DetectedFooterView,
    entries: Entries,
    paths: Seq<Located>,
    files: Seq<StoredFile>,
)
    requires
        detected.footer.index_offset <= archive.len(),
        lists_only(entries, detected.version, paths, files),
        files.len() == paths.len(),
        forall|i: int|
            0 <= i < files.len() ==> is_storable(
                detected.version,
                detected.compression_codecs,
                detected.footer.index_offset,
                #[trigger] files[i],
            ),
        digests_are_right(archive, detected.version, files),
    ensures
        forall|k: int|
            0 <= k < entries.len() ==> (#[trigger] entries[k]).1.header_offset
                + entries[k].1.header_size + entries[k].1.stored_size
                <= detected.footer.index_offset && sha1_digest(payload_of(archive, entries[k].1))
                == entries[k].1.payload_sha1,
{
    let version = detected.version;
    assert forall|k: int| 0 <= k < entries.len() implies (#[trigger] entries[k]).1.header_offset
        + entries[k].1.header_size + entries[k].1.stored_size <= detected.footer.index_offset
        && sha1_digest(payload_of(archive, entries[k].1)) == entries[k].1.payload_sha1 by {
        let i = choose|i: int|
            0 <= i < paths.len() && is_entry_of(
                #[trigger] entries[k],
                version,
                #[trigger] paths[i],
                files[i],
            );
        assert(end_of(version, files[i]) <= detected.footer.index_offset);
    }
}

proof fn opening_comes_together(
    path: Seq<char>,
    archive: Seq<u8>,
    validation: LogicalValidation,
    outside: OutsideReadingView,
    detected: DetectedFooterView,
    parsed: ParsedIndexesView,
    hashes: Seq<PayloadHashView>,
)
    requires
        MIN_PAK_FOOTER_SIZE <= archive.len(),
        detected_footer(archive) == Ok::<DetectedFooterView, PakErrorView>(detected),
        indexes_of(archive, detected) == Ok::<ParsedIndexesView, PakErrorView>(parsed),
        outside_fault(detected.version, parsed, outside) is None,
        work_of(archive.len() as u64, parsed.entries, validation) is Ok,
        hashes_from(Seq::empty(), archive, parsed.entries) == Ok::<
            Seq<PayloadHashView>,
            PakErrorView,
        >(hashes),
        digest_fault_from(
            archive,
            detected.version,
            parsed.entries,
            hashes,
            0,
            outside.uexp_tags,
            outside.maximum_uexp_bytes,
        ) is None,
        contents_from(
            Seq::empty(),
            archive,
            with_hashes(parsed.entries, hashes),
            outside.outputs,
            validation.strict(),
        ) is Ok,
        grouped(paths_of(with_hashes(parsed.entries, hashes))) is Ok,
    ensures
        opened(path, archive, validation, outside) matches Ok(found) && found.bytes == archive
            && found.inventory.mount_point == parsed.mount_point && found.entries.len()
            == parsed.entries.len(),
{
    reveal(opened);
}

} // verus!
