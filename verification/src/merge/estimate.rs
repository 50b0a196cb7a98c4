//! How much room a merged Pak takes: an upper bound that is derived from the
//! files and paths of the output alone.
use std::collections::{BTreeMap, BTreeSet};

use vstd::prelude::*;

use super::error::{invalid_request, MergeError, MergeErrorView, Outcome, Result};
use crate::ordered::{get, put, values, OrderedMap};
use crate::pak::decode::{archive_error, map_repak_error, RepakError, RepakErrorView};
use crate::pak::error::{PakError, PakErrorView};
use crate::pak::footer::PAK_V11_FOOTER_SIZE;
use crate::pak::write::OutputCompression;
use crate::sorting::{keys, met_from, pair_views};
use crate::text::{cat2, cat3, chars_of, dec, debug_text, decimal, encode_utf16, quoted, text_of, utf16_of};

verus! {

broadcast use vstd::std_specs::btree::group_btree_axioms;

/// The header before an uncompressed file.
pub const ENTRY_HEADER_SIZE_NONE_V11: u64 = 53;

/// The header before a compressed file, without its block ranges.
pub const V11_COMPRESSED_ENTRY_HEADER_BASE_BYTES: u64 = 57;

pub const V11_COMPRESSION_BLOCK_RANGE_BYTES: u64 = 16;

pub const V11_ENCODED_ENTRY_NONE_MAX_BYTES: u64 = 20;

pub const V11_ENCODED_ENTRY_COMPRESSED_BASE_MAX_BYTES: u64 = 28;

pub const V11_ENCODED_BLOCK_SIZE_BYTES: u64 = 4;

pub const V11_PRIMARY_INDEX_FIXED_BYTES: u64 = 100;

pub const V11_PATH_HASH_INDEX_FIXED_BYTES: u64 = 8;

pub const V11_PATH_HASH_RECORD_BYTES: u64 = 12;

pub const V11_FULL_DIRECTORY_INDEX_FIXED_BYTES: u64 = 4;

pub const V11_FULL_DIRECTORY_FILE_COUNT_BYTES: u64 = 4;

pub const V11_FULL_DIRECTORY_FILE_OFFSET_BYTES: u64 = 4;

/// How the archive writer splits a file into blocks: their size and number, or
/// why it cannot.
pub type BlockLayout = std::result::Result<(u32, u32), RepakError>;

pub type BlockLayoutView = std::result::Result<(u32, u32), RepakErrorView>;

pub open spec fn layout_view(layout: BlockLayout) -> BlockLayoutView {
    match layout {
        Ok(found) => Ok(found),
        Err(error) => Err(error@),
    }
}

pub open spec fn layout_views(layouts: Seq<BlockLayout>) -> Seq<BlockLayoutView> {
    layouts.map_values(|layout: BlockLayout| layout_view(layout))
}

/// No block is empty.
pub open spec fn blocks_hold_bytes(layouts: Seq<BlockLayout>) -> bool {
    forall|i: int|
        0 <= i < layouts.len() ==> (#[trigger] layouts[i] matches Ok(found) ==> found.0 > 0)
}

pub open spec fn overflowed<W>() -> Outcome<W> {
    invalid_request("disk-space estimate overflow"@)
}

/// A number where it fits the estimate.
pub open spec fn fitting(value: int) -> Outcome<int> {
    if value > u64::MAX {
        overflowed()
    } else {
        Ok(value)
    }
}

/// The outcome of an executable step, as the step's contract states it.
pub open spec fn same_number(result: Result<u64>, wanted: Outcome<int>) -> bool {
    match (result, wanted) {
        (Ok(value), Ok(number)) => value == number,
        (Err(error), Err(expected)) => error@ == expected,
        _ => false,
    }
}

fn disk_space_estimate_overflow() -> (error: MergeError)
    ensures
        error@ == MergeErrorView::InvalidRequest("disk-space estimate overflow"@),
{
    MergeError::InvalidRequest("disk-space estimate overflow".to_owned())
}

fn checked_estimate_add(left: u64, right: u64) -> (result: Result<u64>)
    ensures
        same_number(result, fitting(left + right)),
{
    match left.checked_add(right) {
        Some(sum) => Ok(sum),
        None => Err(disk_space_estimate_overflow()),
    }
}

fn checked_estimate_mul(left: u64, right: u64) -> (result: Result<u64>)
    ensures
        same_number(result, fitting(left * right)),
{
    match left.checked_mul(right) {
        Some(product) => Ok(product),
        None => Err(disk_space_estimate_overflow()),
    }
}

/// The sum of a list of sizes.
pub open spec fn sum_of(sizes: Seq<u64>) -> int
    decreases sizes.len(),
{
    if sizes.len() == 0 {
        0
    } else {
        sum_of(sizes.drop_last()) + sizes.last()
    }
}

proof fn sum_of_grows(sizes: Seq<u64>, at: int)
    requires
        0 <= at <= sizes.len(),
    ensures
        sum_of(sizes.take(at)) <= sum_of(sizes),
    decreases sizes.len() - at,
{
    if at == sizes.len() {
        assert(sizes.take(at) =~= sizes);
    } else {
        assert(sizes.take(at + 1).drop_last() =~= sizes.take(at));
        sum_of_grows(sizes, at + 1);
    }
}

/// The logical bytes of all files together.
pub fn checked_logical_entry_bytes(sizes: &Vec<u64>) -> (result: Result<u64>)
    ensures
        same_number(result, fitting(sum_of(sizes@))),
{
    let mut total: u64 = 0;
    let mut at: usize = 0;
    assert(sizes@.take(0) =~= Seq::<u64>::empty());
    while at < sizes.len()
        invariant
            at <= sizes@.len(),
            total == sum_of(sizes@.take(at as int)),
        decreases sizes.len() - at,
    {
        proof {
            assert(sizes@.take(at as int + 1).drop_last() =~= sizes@.take(at as int));
            sum_of_grows(sizes@, at as int + 1);
        }
        total = match checked_estimate_add(total, sizes[at]) {
            Ok(sum) => sum,
            Err(error) => {
                return Err(error);
            },
        };
        at += 1;
    }
    assert(sizes@.take(at as int) =~= sizes@);
    Ok(total)
}

/// The smallest multiple of `unit` that is not below `value`.
pub open spec fn rounded(value: int, unit: int) -> int {
    if value % unit == 0 {
        value
    } else {
        value + unit - value % unit
    }
}

/// `value` rounded up to whole allocation units.
pub open spec fn rounded_up(value: int, unit: int) -> Outcome<int> {
    if unit == 0 {
        overflowed()
    } else {
        fitting(rounded(value, unit))
    }
}

pub fn round_up_estimate(value: u64, unit: u64) -> (result: Result<u64>)
    ensures
        same_number(result, rounded_up(value as int, unit as int)),
{
    if unit == 0 {
        return Err(disk_space_estimate_overflow());
    }
    let remainder: u64 = value % unit;
    if remainder == 0 {
        Ok(value)
    } else {
        checked_estimate_add(value, unit - remainder)
    }
}

/// The block layout of a file, as the library reports it.
pub open spec fn block_layout(layout: BlockLayoutView) -> Outcome<(u64, u64)> {
    match layout {
        Ok((size, count)) => Ok((size as u64, count as u64)),
        Err(error) => Err(MergeErrorView::Pak(archive_error(error))),
    }
}

/// The size and the number of the blocks of a compressed file.
pub fn oodle_output_block_layout(layout: &BlockLayout) -> (result: Result<(u64, u64)>)
    ensures
        match (result, block_layout(layout_view(*layout))) {
            (Ok(found), Ok(wanted)) => found == wanted,
            (Err(error), Err(wanted)) => error@ == wanted,
            _ => false,
        },
{
    match layout {
        Ok(found) => Ok((found.0 as u64, found.1 as u64)),
        Err(error) => Err(MergeError::Pak(map_repak_error(error))),
    }
}

/// The sizes of the blocks that the codec will be handed.
pub open spec fn block_sizes_from(
    met: Set<u64>,
    sizes: Seq<u64>,
    layouts: Seq<BlockLayoutView>,
) -> Outcome<Set<u64>>
    decreases sizes.len(),
{
    if sizes.len() == 0 {
        Ok(met)
    } else if sizes[0] == 0 {
        block_sizes_from(met, sizes.skip(1), layouts.skip(1))
    } else {
        match block_layout(layouts[0]) {
            Err(error) => Err(error),
            Ok((block, _)) => {
                let with_full = if sizes[0] >= block {
                    met.insert(block)
                } else {
                    met
                };
                let with_rest = if sizes[0] % block != 0 {
                    with_full.insert(sizes[0] % block)
                } else {
                    with_full
                };
                block_sizes_from(with_rest, sizes.skip(1), layouts.skip(1))
            },
        }
    }
}

/// The bounds that the codec has given, by block size; a block that no codec can
/// take is refused.
pub open spec fn bounds_from(map: Map<u64, u64>, answers: Seq<(u64, u64)>) -> Outcome<Map<u64, u64>>
    decreases answers.len(),
{
    if answers.len() == 0 {
        Ok(map)
    } else if answers[0].0 == 0 || answers[0].0 > u32::MAX {
        Err(
            MergeErrorView::Pak(
                PakErrorView::Corrupt("invalid Oodle output block size "@ + dec(answers[0].0 as nat)),
            ),
        )
    } else {
        bounds_from(map.insert(answers[0].0, answers[0].1), answers.skip(1))
    }
}

/// Collects the bounds that the codec gives for blocks of certain sizes.
pub fn oodle_output_block_bounds(answers: &Vec<(u64, u64)>) -> (result: Result<BTreeMap<u64, u64>>)
    ensures
        match (result, bounds_from(Map::empty(), answers@)) {
            (Ok(bounds), Ok(wanted)) => bounds@ == wanted,
            (Err(error), Err(wanted)) => error@ == wanted,
            _ => false,
        },
{
    let mut bounds: BTreeMap<u64, u64> = BTreeMap::new();
    let mut at: usize = 0;
    proof {
        assert(answers@.skip(0) =~= answers@);
        assert(bounds@ =~= Map::<u64, u64>::empty());
    }
    while at < answers.len()
        invariant
            at <= answers@.len(),
            bounds_from(Map::empty(), answers@) == bounds_from(bounds@, answers@.skip(at as int)),
        decreases answers.len() - at,
    {
        let (size, bound): (u64, u64) = answers[at];
        proof {
            assert(answers@.skip(at as int)[0] == answers@[at as int]);
            assert(answers@.skip(at as int).skip(1) =~= answers@.skip(at as int + 1));
        }
        if size == 0 || size > u32::MAX as u64 {
            return Err(
                MergeError::Pak(
                    PakError::Corrupt(
                        cat2("invalid Oodle output block size ", decimal(size).as_str()),
                    ),
                ),
            );
        }
        bounds.insert(size, bound);
        at += 1;
    }
    Ok(bounds)
}

/// The sizes in a list of files.
pub open spec fn sizes_of(entries: Seq<(Seq<char>, u64)>) -> Seq<u64> {
    entries.map_values(|entry: (Seq<char>, u64)| entry.1)
}

/// The sizes of the blocks whose bounds the codec must give.
pub fn required_oodle_block_sizes(entries: &Vec<(String, u64)>, layouts: &Vec<BlockLayout>) -> (result:
    Result<BTreeSet<u64>>)
    requires
        layouts@.len() == entries@.len(),
        blocks_hold_bytes(layouts@),
    ensures
        match (result, block_sizes_from(
            Set::empty(),
            sizes_of(pair_views(entries@)),
            layout_views(layouts@),
        )) {
            (Ok(found), Ok(wanted)) => found@ == wanted,
            (Err(error), Err(wanted)) => error@ == wanted,
            _ => false,
        },
{
    let mut sizes: BTreeSet<u64> = BTreeSet::new();
    let ghost all = sizes_of(pair_views(entries@));
    let ghost laid = layout_views(layouts@);
    let mut at: usize = 0;
    proof {
        assert(all.skip(0) =~= all);
        assert(laid.skip(0) =~= laid);
        assert(sizes@ =~= Set::<u64>::empty());
    }
    while at < entries.len()
        invariant
            at <= entries@.len(),
            layouts@.len() == entries@.len(),
            blocks_hold_bytes(layouts@),
            all == sizes_of(pair_views(entries@)),
            laid == layout_views(layouts@),
            block_sizes_from(Set::empty(), all, laid) == block_sizes_from(
                sizes@,
                all.skip(at as int),
                laid.skip(at as int),
            ),
        decreases entries.len() - at,
    {
        let size: u64 = entries[at].1;
        proof {
            assert(all.skip(at as int)[0] == size);
            assert(all.skip(at as int).skip(1) =~= all.skip(at as int + 1));
            assert(laid.skip(at as int)[0] == layout_view(layouts@[at as int]));
            assert(laid.skip(at as int).skip(1) =~= laid.skip(at as int + 1));
        }
        if size != 0 {
            match oodle_output_block_layout(&layouts[at]) {
                Err(error) => {
                    return Err(error);
                },
                Ok((block, _)) => {
                    if size >= block {
                        sizes.insert(block);
                    }
                    let remainder: u64 = size % block;
                    if remainder != 0 {
                        sizes.insert(remainder);
                    }
                },
            }
        }
        at += 1;
    }
    Ok(sizes)
}

/// What one file costs: its payload, its header and its index record.
pub open spec fn entry_cost(
    size: u64,
    compression: OutputCompression,
    layout: BlockLayoutView,
    bounds: Map<u64, u64>,
) -> Outcome<(int, int, int)> {
    if compression == OutputCompression::Uncompressed || size == 0 {
        Ok((
            size as int,
            ENTRY_HEADER_SIZE_NONE_V11 as int,
            V11_ENCODED_ENTRY_NONE_MAX_BYTES as int,
        ))
    } else {
        match block_layout(layout) {
            Err(error) => Err(error),
            Ok((block, count)) => {
                let full = size / block;
                let rest = size % block;
                let full_bytes = if full == 0 {
                    0
                } else {
                    full * bounds[block]
                };
                let rest_bytes = if rest == 0 {
                    0
                } else {
                    bounds[rest] as int
                };
                if full != 0 && !bounds.contains_key(block) {
                    invalid_request(
                        "missing Oodle size estimate for a "@ + dec(block as nat)
                            + "-byte full block"@,
                    )
                } else if full_bytes > u64::MAX {
                    overflowed()
                } else if rest != 0 && !bounds.contains_key(rest) {
                    invalid_request(
                        "missing Oodle size estimate for a "@ + dec(rest as nat) + "-byte block"@,
                    )
                } else if full_bytes + rest_bytes > u64::MAX {
                    overflowed()
                } else {
                    Ok((
                        full_bytes + rest_bytes,
                        V11_COMPRESSED_ENTRY_HEADER_BASE_BYTES + count
                            * V11_COMPRESSION_BLOCK_RANGE_BYTES,
                        V11_ENCODED_ENTRY_COMPRESSED_BASE_MAX_BYTES + count
                            * V11_ENCODED_BLOCK_SIZE_BYTES,
                    ))
                }
            },
        }
    }
}

fn estimate_entry(
    size: u64,
    compression: OutputCompression,
    layout: &BlockLayout,
    oodle_bounds: &BTreeMap<u64, u64>,
) -> (result: Result<(u64, u64, u64)>)
    requires
        layout matches Ok(found) ==> found.0 > 0,
    ensures
        match (result, entry_cost(size, compression, layout_view(*layout), oodle_bounds@)) {
            (Ok(found), Ok(wanted)) => found.0 == wanted.0 && found.1 == wanted.1 && found.2
                == wanted.2,
            (Err(error), Err(wanted)) => error@ == wanted,
            _ => false,
        },
{
    if compression == OutputCompression::Uncompressed || size == 0 {
        return Ok((size, ENTRY_HEADER_SIZE_NONE_V11, V11_ENCODED_ENTRY_NONE_MAX_BYTES));
    }
    let (block, count) = match oodle_output_block_layout(layout) {
        Ok(found) => found,
        Err(error) => {
            return Err(error);
        },
    };
    let full: u64 = size / block;
    let rest: u64 = size % block;
    let full_bytes: u64 = if full == 0 {
        0
    } else {
        match oodle_bounds.get(&block) {
            Some(bound) => match checked_estimate_mul(full, *bound) {
                Ok(bytes) => bytes,
                Err(error) => {
                    return Err(error);
                },
            },
            None => {
                return Err(
                    MergeError::InvalidRequest(
                        cat3(
                            "missing Oodle size estimate for a ",
                            decimal(block).as_str(),
                            "-byte full block",
                        ),
                    ),
                );
            },
        }
    };
    let rest_bytes: u64 = if rest == 0 {
        0
    } else {
        match oodle_bounds.get(&rest) {
            Some(bound) => *bound,
            None => {
                return Err(
                    MergeError::InvalidRequest(
                        cat3(
                            "missing Oodle size estimate for a ",
                            decimal(rest).as_str(),
                            "-byte block",
                        ),
                    ),
                );
            },
        }
    };
    let payload: u64 = match checked_estimate_add(full_bytes, rest_bytes) {
        Ok(bytes) => bytes,
        Err(error) => {
            return Err(error);
        },
    };
    assert(count <= u32::MAX);
    Ok((
        payload,
        V11_COMPRESSED_ENTRY_HEADER_BASE_BYTES + count * V11_COMPRESSION_BLOCK_RANGE_BYTES,
        V11_ENCODED_ENTRY_COMPRESSED_BASE_MAX_BYTES + count * V11_ENCODED_BLOCK_SIZE_BYTES,
    ))
}

/// The layout of the file at `at`; a plain file needs none.
pub open spec fn layout_at(layouts: Seq<BlockLayoutView>, at: int) -> BlockLayoutView {
    if 0 <= at < layouts.len() {
        layouts[at]
    } else {
        Ok((1u32, 0u32))
    }
}

/// The bytes of the file data and of the index records, over all files.
pub open spec fn data_cost_from(
    data: int,
    index: int,
    sizes: Seq<u64>,
    at: int,
    compression: OutputCompression,
    layouts: Seq<BlockLayoutView>,
    bounds: Map<u64, u64>,
) -> Outcome<(int, int)>
    decreases sizes.len() - at,
{
    if at >= sizes.len() {
        Ok((data, index))
    } else {
        match entry_cost(sizes[at], compression, layout_at(layouts, at), bounds) {
            Err(error) => Err(error),
            Ok((payload, header, encoded)) => if data + header + payload > u64::MAX || index
                + encoded > u64::MAX {
                overflowed()
            } else {
                data_cost_from(
                    data + header + payload,
                    index + encoded,
                    sizes,
                    at + 1,
                    compression,
                    layouts,
                    bounds,
                )
            },
        }
    }
}

fn estimate_data(
    entries: &Vec<(String, u64)>,
    compression: OutputCompression,
    layouts: &Vec<BlockLayout>,
    oodle_bounds: &BTreeMap<u64, u64>,
) -> (result: Result<(u64, u64)>)
    requires
        blocks_hold_bytes(layouts@),
    ensures
        match (result, data_cost_from(
            0,
            0,
            sizes_of(pair_views(entries@)),
            0,
            compression,
            layout_views(layouts@),
            oodle_bounds@,
        )) {
            (Ok(found), Ok(wanted)) => found.0 == wanted.0 && found.1 == wanted.1,
            (Err(error), Err(wanted)) => error@ == wanted,
            _ => false,
        },
{
    let ghost sizes = sizes_of(pair_views(entries@));
    let ghost laid = layout_views(layouts@);
    let mut data: u64 = 0;
    let mut index: u64 = 0;
    let mut at: usize = 0;
    let plain: BlockLayout = Ok((1u32, 0u32));
    while at < entries.len()
        invariant
            at <= entries@.len(),
            blocks_hold_bytes(layouts@),
            plain == Ok::<(u32, u32), RepakError>((1u32, 0u32)),
            sizes == sizes_of(pair_views(entries@)),
            laid == layout_views(layouts@),
            data_cost_from(0, 0, sizes, 0, compression, laid, oodle_bounds@) == data_cost_from(
                data as int,
                index as int,
                sizes,
                at as int,
                compression,
                laid,
                oodle_bounds@,
            ),
        decreases entries.len() - at,
    {
        let layout: &BlockLayout = if at < layouts.len() {
            &layouts[at]
        } else {
            &plain
        };
        proof {
            assert(sizes[at as int] == entries@[at as int].1);
            assert(layout_view(*layout) == layout_at(laid, at as int));
        }
        let (payload, header, encoded) = match estimate_entry(
            entries[at].1,
            compression,
            layout,
            oodle_bounds,
        ) {
            Ok(found) => found,
            Err(error) => {
                return Err(error);
            },
        };
        let framed: u64 = match checked_estimate_add(header, payload) {
            Ok(sum) => sum,
            Err(error) => {
                return Err(error);
            },
        };
        data = match checked_estimate_add(data, framed) {
            Ok(sum) => sum,
            Err(error) => {
                return Err(error);
            },
        };
        index = match checked_estimate_add(index, encoded) {
            Ok(sum) => sum,
            Err(error) => {
                return Err(error);
            },
        };
        at += 1;
    }
    Ok((data, index))
}

pub open spec fn is_ascii_text(text: Seq<char>) -> bool {
    forall|i: int| 0 <= i < text.len() ==> ((#[trigger] text[i]) as u32) < 128
}

/// The bytes of a serialized text: a length, the characters and a terminator.
pub open spec fn string_size(text: Seq<char>) -> int {
    if is_ascii_text(text) {
        4int + text.len() + 1
    } else {
        4int + 2 * (encode_utf16(text).len() + 1)
    }
}

pub fn pak_string_serialized_size(value: &str) -> (result: Result<u64>)
    ensures
        same_number(result, fitting(string_size(value@))),
{
    let chars = chars_of(value);
    let mut ascii = true;
    let mut at: usize = 0;
    while at < chars.len() && ascii
        invariant
            at <= chars@.len(),
            chars@ == value@,
            ascii ==> forall|i: int| 0 <= i < at ==> ((#[trigger] chars@[i]) as u32) < 128,
            !ascii ==> !is_ascii_text(value@),
        decreases chars.len() - at + (if ascii {
            1int
        } else {
            0
        }),
    {
        if chars[at] as u32 >= 128 {
            assert(!((value@[at as int] as u32) < 128));
            ascii = false;
        } else {
            at += 1;
        }
    }
    if ascii {
        match checked_estimate_add(chars.len() as u64, 1) {
            Ok(payload) => checked_estimate_add(4, payload),
            Err(error) => Err(error),
        }
    } else {
        let units: u64 = utf16_of(value).len() as u64;
        let terminated: u64 = match checked_estimate_add(units, 1) {
            Ok(count) => count,
            Err(error) => {
                return Err(error);
            },
        };
        match checked_estimate_mul(terminated, 2) {
            Ok(payload) => checked_estimate_add(4, payload),
            Err(error) => Err(error),
        }
    }
}

/// How many characters stand up to and with the last `/`.
pub open spec fn folder_len(path: Seq<char>) -> int
    decreases path.len(),
{
    if path.len() == 0 {
        0
    } else if path.last() == '/' {
        path.len() as int
    } else {
        folder_len(path.drop_last())
    }
}

proof fn folder_len_is(path: Seq<char>, at: int)
    requires
        0 <= at <= path.len(),
        at > 0 ==> path[at - 1] == '/',
        forall|i: int| at <= i < path.len() ==> path[i] != '/',
    ensures
        folder_len(path) == at,
    decreases path.len(),
{
    if at < path.len() {
        assert forall|i: int| at <= i < path.drop_last().len() implies path.drop_last()[i] != '/' by {
            assert(path.drop_last()[i] == path[i]);
        }
        folder_len_is(path.drop_last(), at);
    }
}

proof fn folder_len_bounds(path: Seq<char>)
    ensures
        0 <= folder_len(path) <= path.len(),
    decreases path.len(),
{
    if path.len() > 0 && path.last() != '/' {
        folder_len_bounds(path.drop_last());
    }
}

/// The folder of a path and the name in it. The root has neither.
pub open spec fn child_of(path: Seq<char>) -> Option<(Seq<char>, Seq<char>)> {
    if path.len() == 0 || path == seq!['/'] {
        None
    } else {
        let bare = if path.last() == '/' {
            path.drop_last()
        } else {
            path
        };
        let at = folder_len(bare);
        if at == 0 {
            Some((seq!['/'], bare))
        } else {
            Some((bare.take(at), bare.skip(at)))
        }
    }
}

/// The length by which climbing towards the root is measured.
pub open spec fn climb_len(path: Seq<char>) -> nat {
    if path.len() == 0 || path == seq!['/'] {
        0
    } else {
        path.len() + 1
    }
}

proof fn climbing_ends(path: Seq<char>)
    ensures
        child_of(path) matches Some((folder, _)) ==> climb_len(folder) < climb_len(path),
{
    if child_of(path) is Some {
        let bare = if path.last() == '/' {
            path.drop_last()
        } else {
            path
        };
        folder_len_bounds(bare);
        let at = folder_len(bare);
        if at == bare.len() && path.last() != '/' {
            // then the bare path would end in a separator
            folder_of_open_path(bare);
        }
    }
}

proof fn folder_of_open_path(path: Seq<char>)
    requires
        path.len() > 0,
        path.last() != '/',
    ensures
        folder_len(path) < path.len(),
{
    folder_len_bounds(path.drop_last());
}

#[via_fn]
proof fn folders_of_decreases(path: Seq<char>) {
    climbing_ends(path);
}

/// The folders above a path, the nearest first.
pub open spec fn folders_of(path: Seq<char>) -> Seq<Seq<char>>
    decreases climb_len(path),
    via folders_of_decreases
{
    match child_of(path) {
        None => Seq::empty(),
        Some((folder, _)) => seq![folder] + folders_of(folder),
    }
}

pub fn split_output_path_child(path: &str) -> (result: Option<(String, String)>)
    ensures
        match (result, child_of(path@)) {
            (Some(found), Some(wanted)) => found.0@ == wanted.0 && found.1@ == wanted.1,
            (None, None) => true,
            _ => false,
        },
{
    let chars = chars_of(path);
    if chars.len() == 0 {
        return None;
    }
    if chars.len() == 1 && chars[0] == '/' {
        assert(path@ =~= seq!['/']);
        return None;
    }
    proof {
        if path@ == seq!['/'] {
            assert(path@.len() == 1 && path@[0] == '/');
        }
    }
    let end: usize = if chars[chars.len() - 1] == '/' {
        chars.len() - 1
    } else {
        chars.len()
    };
    let ghost bare = if path@.last() == '/' {
        path@.drop_last()
    } else {
        path@
    };
    assert(bare =~= chars@.take(end as int));
    let mut at: usize = end;
    while at > 0 && chars[at - 1] != '/'
        invariant
            at <= end <= chars@.len(),
            bare == chars@.take(end as int),
            forall|i: int| at <= i < end ==> bare[i] != '/',
        decreases at,
    {
        at -= 1;
    }
    proof {
        folder_len_is(bare, at as int);
    }
    if at == 0 {
        let mut root = String::new();
        root.push('/');
        assert(root@ =~= seq!['/']);
        let name = text_of(&chars, 0, end);
        assert(chars@.subrange(0, end as int) =~= bare);
        Some((root, name))
    } else {
        let folder = text_of(&chars, 0, at);
        let name = text_of(&chars, at, end);
        assert(chars@.subrange(0, at as int) =~= bare.take(at as int));
        assert(chars@.subrange(at as int, end as int) =~= bare.skip(at as int));
        Some((folder, name))
    }
}

/// The folders and the files of an index, each once. A file stands under its
/// folder and name together.
pub open spec fn index_tables_from(
    folders: Seq<(Seq<char>, bool)>,
    files: Seq<(Seq<char>, Seq<char>)>,
    rest: Seq<Seq<char>>,
) -> Outcome<(Seq<(Seq<char>, bool)>, Seq<(Seq<char>, Seq<char>)>)>
    decreases rest.len(),
{
    if rest.len() == 0 {
        Ok((folders, files))
    } else {
        match child_of(rest[0]) {
            None => invalid_request("invalid output path for Pak index: "@ + debug_text(rest[0])),
            Some((folder, name)) => index_tables_from(
                met_from(folders, folders_of(rest[0])),
                put(files, folder + name, name),
                rest.skip(1),
            ),
        }
    }
}

/// The bytes of a list of names, each with four bytes behind it.
pub open spec fn names_size(names: Seq<Seq<char>>) -> int
    decreases names.len(),
{
    if names.len() == 0 {
        0
    } else {
        names_size(names.drop_last()) + string_size(names.last()) + 4
    }
}

proof fn names_size_grows(names: Seq<Seq<char>>, at: int)
    requires
        0 <= at <= names.len(),
    ensures
        names_size(names.take(at)) <= names_size(names),
        0 <= names_size(names.take(at)),
    decreases names.len() - at,
{
    if at == names.len() {
        assert(names.take(at) =~= names);
        names_size_is_positive(names);
    } else {
        assert(names.take(at + 1).drop_last() =~= names.take(at));
        names_size_grows(names, at + 1);
        names_size_is_positive(names.take(at));
    }
}

proof fn names_size_is_positive(names: Seq<Seq<char>>)
    ensures
        0 <= names_size(names),
    decreases names.len(),
{
    if names.len() > 0 {
        names_size_is_positive(names.drop_last());
    }
}

/// The size of the directory index.
pub open spec fn directory_cost(paths: Seq<Seq<char>>) -> Outcome<int> {
    match index_tables_from(Seq::empty(), Seq::empty(), paths) {
        Err(error) => Err(error),
        Ok((folders, files)) => fitting(
            V11_FULL_DIRECTORY_INDEX_FIXED_BYTES + names_size(keys(folders)) + names_size(
                values(files),
            ),
        ),
    }
}

/// Adds the bytes of the keys of a map.
fn add_key_sizes(start: u64, map: &OrderedMap<bool>) -> (result: Result<u64>)
    ensures
        same_number(result, fitting(start + names_size(keys(map@)))),
{
    let ghost names = keys(map@);
    let mut size: u64 = start;
    let mut at: usize = 0;
    assert(names.take(0) =~= Seq::<Seq<char>>::empty());
    while at < map.items.len()
        invariant
            at <= map.items@.len(),
            names == keys(map@),
            size == start + names_size(names.take(at as int)),
        decreases map.items.len() - at,
    {
        proof {
            assert(names.take(at as int + 1).drop_last() =~= names.take(at as int));
            assert(names.take(at as int + 1).last() == map.items@[at as int].0@);
            names_size_grows(names, at as int + 1);
        }
        let name: u64 = match pak_string_serialized_size(map.items[at].0.as_str()) {
            Ok(size) => size,
            Err(error) => {
                return Err(error);
            },
        };
        let named: u64 = match checked_estimate_add(size, name) {
            Ok(sum) => sum,
            Err(error) => {
                return Err(error);
            },
        };
        size = match checked_estimate_add(named, V11_FULL_DIRECTORY_FILE_COUNT_BYTES) {
            Ok(sum) => sum,
            Err(error) => {
                return Err(error);
            },
        };
        at += 1;
    }
    assert(names.take(at as int) =~= names);
    Ok(size)
}

/// Adds the bytes of the values of a map.
fn add_value_sizes(start: u64, map: &OrderedMap<String>) -> (result: Result<u64>)
    ensures
        same_number(result, fitting(start + names_size(values(map@)))),
{
    let ghost names = values(map@);
    let mut size: u64 = start;
    let mut at: usize = 0;
    assert(names.take(0) =~= Seq::<Seq<char>>::empty());
    while at < map.items.len()
        invariant
            at <= map.items@.len(),
            names == values(map@),
            size == start + names_size(names.take(at as int)),
        decreases map.items.len() - at,
    {
        proof {
            assert(names.take(at as int + 1).drop_last() =~= names.take(at as int));
            assert(names.take(at as int + 1).last() == map.items@[at as int].1@);
            names_size_grows(names, at as int + 1);
        }
        let name: u64 = match pak_string_serialized_size(map.items[at].1.as_str()) {
            Ok(size) => size,
            Err(error) => {
                return Err(error);
            },
        };
        let named: u64 = match checked_estimate_add(size, name) {
            Ok(sum) => sum,
            Err(error) => {
                return Err(error);
            },
        };
        size = match checked_estimate_add(named, V11_FULL_DIRECTORY_FILE_OFFSET_BYTES) {
            Ok(sum) => sum,
            Err(error) => {
                return Err(error);
            },
        };
        at += 1;
    }
    assert(names.take(at as int) =~= names);
    Ok(size)
}

/// Enters the folders above a path.
fn enter_folders(folders: &mut OrderedMap<bool>, path: &str)
    requires
        old(folders).well_formed(),
    ensures
        final(folders).well_formed(),
        final(folders)@ == met_from(old(folders)@, folders_of(path@)),
{
    let ghost start = folders@;
    let mut current = path.to_owned();
    loop
        invariant
            folders.well_formed(),
            met_from(start, folders_of(path@)) == met_from(folders@, folders_of(current@)),
        ensures
            folders.well_formed(),
            folders@ == met_from(start, folders_of(path@)),
        decreases climb_len(current@),
    {
        proof {
            climbing_ends(current@);
        }
        match split_output_path_child(current.as_str()) {
            None => {
                break;
            },
            Some((folder, _)) => {
                proof {
                    let above = folders_of(current@);
                    assert(above[0] == folder@);
                    assert(above.skip(1) =~= folders_of(folder@));
                }
                folders.insert(folder.clone(), true);
                current = folder;
            },
        }
    }
}

/// The paths in a list of files.
pub open spec fn paths_in(entries: Seq<(Seq<char>, u64)>) -> Seq<Seq<char>> {
    entries.map_values(|entry: (Seq<char>, u64)| entry.0)
}

pub fn full_directory_index_serialized_size(entries: &Vec<(String, u64)>) -> (result: Result<u64>)
    ensures
        same_number(result, directory_cost(paths_in(pair_views(entries@)))),
{
    let mut folders: OrderedMap<bool> = OrderedMap::new();
    let mut files: OrderedMap<String> = OrderedMap::new();
    let ghost all = paths_in(pair_views(entries@));
    let mut at: usize = 0;
    assert(all.skip(0) =~= all);
    while at < entries.len()
        invariant
            at <= entries@.len(),
            all == paths_in(pair_views(entries@)),
            folders.well_formed(),
            files.well_formed(),
            index_tables_from(Seq::empty(), Seq::empty(), all) == index_tables_from(
                folders@,
                files@,
                all.skip(at as int),
            ),
        decreases entries.len() - at,
    {
        proof {
            assert(all.skip(at as int)[0] == entries@[at as int].0@);
            assert(all.skip(at as int).skip(1) =~= all.skip(at as int + 1));
        }
        let path = entries[at].0.as_str();
        match split_output_path_child(path) {
            None => {
                return Err(
                    MergeError::InvalidRequest(
                        cat2("invalid output path for Pak index: ", quoted(path).as_str()),
                    ),
                );
            },
            Some((folder, name)) => {
                enter_folders(&mut folders, path);
                files.insert(cat2(folder.as_str(), name.as_str()), name);
            },
        }
        at += 1;
    }
    proof {
        names_size_is_positive(keys(folders@));
        names_size_is_positive(values(files@));
    }
    let with_folders: u64 = match add_key_sizes(V11_FULL_DIRECTORY_INDEX_FIXED_BYTES, &folders) {
        Ok(size) => size,
        Err(error) => {
            return Err(error);
        },
    };
    add_value_sizes(with_folders, &files)
}

/// The temporary room that checking a compressed output takes.
pub open spec fn check_room(sizes: Seq<u64>, unit: int, metadata: int) -> int
    decreases sizes.len(),
{
    if sizes.len() == 0 {
        0
    } else if sizes.last() == 0 {
        check_room(sizes.drop_last(), unit, metadata)
    } else {
        check_room(sizes.drop_last(), unit, metadata) + rounded(sizes.last() as int, unit)
            + metadata
    }
}

proof fn check_room_grows(sizes: Seq<u64>, unit: int, metadata: int, at: int)
    requires
        0 <= at <= sizes.len(),
        unit > 0,
        metadata >= 0,
    ensures
        0 <= check_room(sizes.take(at), unit, metadata) <= check_room(sizes, unit, metadata),
    decreases sizes.len() - at,
{
    if at == sizes.len() {
        assert(sizes.take(at) =~= sizes);
        check_room_is_positive(sizes, unit, metadata);
    } else {
        assert(sizes.take(at + 1).drop_last() =~= sizes.take(at));
        check_room_grows(sizes, unit, metadata, at + 1);
        check_room_is_positive(sizes.take(at), unit, metadata);
        rounding_does_not_shrink(sizes[at] as int, unit);
    }
}

proof fn rounding_does_not_shrink(value: int, unit: int)
    requires
        unit > 0,
    ensures
        value <= rounded(value, unit) < value + unit,
{
    assert(0 <= value % unit < unit) by (nonlinear_arith)
        requires
            unit > 0,
    ;
}

proof fn check_room_is_positive(sizes: Seq<u64>, unit: int, metadata: int)
    requires
        unit > 0,
        metadata >= 0,
    ensures
        0 <= check_room(sizes, unit, metadata),
    decreases sizes.len(),
{
    if sizes.len() > 0 {
        check_room_is_positive(sizes.drop_last(), unit, metadata);
        rounding_does_not_shrink(sizes.last() as int, unit);
    }
}

fn estimate_check_room(entries: &Vec<(String, u64)>, unit: u64, metadata: u64) -> (result: Result<u64>)
    requires
        unit > 0,
    ensures
        same_number(
            result,
            fitting(check_room(sizes_of(pair_views(entries@)), unit as int, metadata as int)),
        ),
{
    let ghost sizes = sizes_of(pair_views(entries@));
    let mut total: u64 = 0;
    let mut at: usize = 0;
    assert(sizes.take(0) =~= Seq::<u64>::empty());
    while at < entries.len()
        invariant
            at <= entries@.len(),
            unit > 0,
            sizes == sizes_of(pair_views(entries@)),
            total == check_room(sizes.take(at as int), unit as int, metadata as int),
        decreases entries.len() - at,
    {
        let size: u64 = entries[at].1;
        proof {
            assert(sizes.take(at as int + 1).drop_last() =~= sizes.take(at as int));
            assert(sizes.take(at as int + 1).last() == size);
            check_room_grows(sizes, unit as int, metadata as int, at as int + 1);
            rounding_does_not_shrink(size as int, unit as int);
        }
        if size != 0 {
            let allocated: u64 = match round_up_estimate(size, unit) {
                Ok(allocated) => allocated,
                Err(error) => {
                    return Err(error);
                },
            };
            let with_metadata: u64 = match checked_estimate_add(allocated, metadata) {
                Ok(sum) => sum,
                Err(error) => {
                    return Err(error);
                },
            };
            total = match checked_estimate_add(total, with_metadata) {
                Ok(sum) => sum,
                Err(error) => {
                    return Err(error);
                },
            };
        }
        at += 1;
    }
    assert(sizes.take(at as int) =~= sizes);
    Ok(total)
}

/// The size of a Pak, once its files' data and index records are known.
pub open spec fn pak_bytes(mount: Seq<char>, paths: Seq<Seq<char>>, data: int, index: int) -> Outcome<
    int,
> {
    let primary = string_size(mount) + V11_PRIMARY_INDEX_FIXED_BYTES + index;
    let hashes = V11_PATH_HASH_INDEX_FIXED_BYTES + paths.len() * V11_PATH_HASH_RECORD_BYTES;
    if primary > u64::MAX || hashes > u64::MAX {
        overflowed()
    } else {
        match directory_cost(paths) {
            Err(error) => Err(error),
            Ok(directory) => fitting(data + primary + hashes + directory + PAK_V11_FOOTER_SIZE),
        }
    }
}

fn estimate_pak_bytes(mount_point: &str, entries: &Vec<(String, u64)>, data: u64, index: u64) -> (result:
    Result<u64>)
    ensures
        same_number(
            result,
            pak_bytes(mount_point@, paths_in(pair_views(entries@)), data as int, index as int),
        ),
{
    let mount: u64 = match pak_string_serialized_size(mount_point) {
        Ok(size) => size,
        Err(error) => {
            return Err(error);
        },
    };
    let fixed: u64 = match checked_estimate_add(mount, V11_PRIMARY_INDEX_FIXED_BYTES) {
        Ok(sum) => sum,
        Err(error) => {
            return Err(error);
        },
    };
    let primary: u64 = match checked_estimate_add(fixed, index) {
        Ok(sum) => sum,
        Err(error) => {
            return Err(error);
        },
    };
    let records: u64 = match checked_estimate_mul(entries.len() as u64, V11_PATH_HASH_RECORD_BYTES) {
        Ok(product) => product,
        Err(error) => {
            return Err(error);
        },
    };
    let hashes: u64 = match checked_estimate_add(V11_PATH_HASH_INDEX_FIXED_BYTES, records) {
        Ok(sum) => sum,
        Err(error) => {
            return Err(error);
        },
    };
    let directory: u64 = match full_directory_index_serialized_size(entries) {
        Ok(size) => size,
        Err(error) => {
            return Err(error);
        },
    };
    let with_primary: u64 = match checked_estimate_add(data, primary) {
        Ok(sum) => sum,
        Err(error) => {
            return Err(error);
        },
    };
    let with_hashes: u64 = match checked_estimate_add(with_primary, hashes) {
        Ok(sum) => sum,
        Err(error) => {
            return Err(error);
        },
    };
    let with_directory: u64 = match checked_estimate_add(with_hashes, directory) {
        Ok(sum) => sum,
        Err(error) => {
            return Err(error);
        },
    };
    checked_estimate_add(with_directory, PAK_V11_FOOTER_SIZE)
}

/// The room that an output takes: the Pak itself in whole allocation units and,
/// for a compressed one, the decoded copies that checking it needs.
pub open spec fn output_room(
    mount: Seq<char>,
    entries: Seq<(Seq<char>, u64)>,
    compression: OutputCompression,
    layouts: Seq<BlockLayoutView>,
    bounds: Map<u64, u64>,
    unit: int,
    metadata: int,
) -> Outcome<int> {
    match data_cost_from(0, 0, sizes_of(entries), 0, compression, layouts, bounds) {
        Err(error) => Err(error),
        Ok((data, index)) => match pak_bytes(mount, paths_in(entries), data, index) {
            Err(error) => Err(error),
            Ok(bytes) => match rounded_up(bytes, unit) {
                Err(error) => Err(error),
                Ok(pak) => if compression == OutputCompression::Uncompressed {
                    Ok(pak)
                } else {
                    fitting(pak + check_room(sizes_of(entries), unit, metadata))
                },
            },
        },
    }
}

pub fn estimated_output_additional_bytes_with_bounds_and_allocation(
    mount_point: &str,
    entries: &Vec<(String, u64)>,
    compression: OutputCompression,
    layouts: &Vec<BlockLayout>,
    oodle_bounds: &BTreeMap<u64, u64>,
    allocation_unit: u64,
    temporary_file_metadata_bytes: u64,
) -> (result: Result<u64>)
    requires
        blocks_hold_bytes(layouts@),
        compression == OutputCompression::Oodle ==> layouts@.len() == entries@.len(),
    ensures
        same_number(
            result,
            output_room(
                mount_point@,
                pair_views(entries@),
                compression,
                layout_views(layouts@),
                oodle_bounds@,
                allocation_unit as int,
                temporary_file_metadata_bytes as int,
            ),
        ),
{
    let (data, index) = match estimate_data(entries, compression, layouts, oodle_bounds) {
        Ok(found) => found,
        Err(error) => {
            return Err(error);
        },
    };
    let bytes: u64 = match estimate_pak_bytes(mount_point, entries, data, index) {
        Ok(bytes) => bytes,
        Err(error) => {
            return Err(error);
        },
    };
    let pak: u64 = match round_up_estimate(bytes, allocation_unit) {
        Ok(pak) => pak,
        Err(error) => {
            return Err(error);
        },
    };
    if compression == OutputCompression::Uncompressed {
        return Ok(pak);
    }
    proof {
        check_room_is_positive(
            sizes_of(pair_views(entries@)),
            allocation_unit as int,
            temporary_file_metadata_bytes as int,
        );
    }
    let room: u64 = match estimate_check_room(
        entries,
        allocation_unit,
        temporary_file_metadata_bytes,
    ) {
        Ok(room) => room,
        Err(error) => {
            return Err(error);
        },
    };
    checked_estimate_add(pak, room)
}

/// The room that an output takes, to the byte.
pub fn estimated_output_additional_bytes_with_bounds(
    mount_point: &str,
    entries: &Vec<(String, u64)>,
    compression: OutputCompression,
    layouts: &Vec<BlockLayout>,
    oodle_bounds: &BTreeMap<u64, u64>,
) -> (result: Result<u64>)
    requires
        blocks_hold_bytes(layouts@),
        compression == OutputCompression::Oodle ==> layouts@.len() == entries@.len(),
    ensures
        same_number(
            result,
            output_room(
                mount_point@,
                pair_views(entries@),
                compression,
                layout_views(layouts@),
                oodle_bounds@,
                1,
                0,
            ),
        ),
{
    estimated_output_additional_bytes_with_bounds_and_allocation(
        mount_point,
        entries,
        compression,
        layouts,
        oodle_bounds,
        1,
        0,
    )
}

/// Whether the work folder has the room that an output takes.
pub open spec fn work_room(available: u64, required: Outcome<int>) -> Outcome<()> {
    match required {
        Err(error) => Err(error),
        Ok(required) => if available < required {
            invalid_request(
                "there is not enough free space in the temporary work folder after preparing merged files: "@
                    + dec(available as nat) + " bytes available, "@ + dec(required as nat)
                    + " additional bytes required"@,
            )
        } else {
            Ok(())
        },
    }
}

/// Whether the work folder, with `available` bytes left and files allocated in
/// units of `granularity` bytes, has the room that an output takes.
pub fn ensure_output_disk_space(
    mount_point: &str,
    entries: &Vec<(String, u64)>,
    compression: OutputCompression,
    layouts: &Vec<BlockLayout>,
    oodle_bounds: &BTreeMap<u64, u64>,
    granularity: u64,
    available: u64,
) -> (result: Result<()>)
    requires
        blocks_hold_bytes(layouts@),
        compression == OutputCompression::Oodle ==> layouts@.len() == entries@.len(),
    ensures
        super::error::seen(result) == work_room(
            available,
            output_room(
                mount_point@,
                pair_views(entries@),
                compression,
                layout_views(layouts@),
                oodle_bounds@,
                (if granularity == 0 {
                    1
                } else {
                    granularity as int
                }),
                (if granularity == 0 {
                    1
                } else {
                    granularity as int
                }),
            ),
        ),
{
    let unit: u64 = if granularity == 0 {
        1
    } else {
        granularity
    };
    let required: u64 = match estimated_output_additional_bytes_with_bounds_and_allocation(
        mount_point,
        entries,
        compression,
        layouts,
        oodle_bounds,
        unit,
        unit,
    ) {
        Ok(required) => required,
        Err(error) => {
            return Err(error);
        },
    };
    if available < required {
        return Err(
            MergeError::InvalidRequest(
                crate::text::cat5(
                    "there is not enough free space in the temporary work folder after preparing merged files: ",
                    decimal(available).as_str(),
                    " bytes available, ",
                    decimal(required).as_str(),
                    " additional bytes required",
                ),
            ),
        );
    }
    Ok(())
}

/// Whether the save folder has room for a copy of the output.
pub open spec fn copy_room(available: u64, size: u64, granularity: u64) -> Outcome<()> {
    let unit = if granularity == 0 {
        1int
    } else {
        granularity as int
    };
    match rounded_up(size as int, unit) {
        Err(error) => Err(error),
        Ok(required) => if available < required {
            invalid_request(
                "there is not enough free space in the save folder: "@ + dec(available as nat)
                    + " bytes available, "@ + dec(required as nat) + " bytes required"@,
            )
        } else {
            Ok(())
        },
    }
}

pub fn ensure_destination_copy_space(expected_size: u64, granularity: u64, available: u64) -> (result:
    Result<()>)
    ensures
        super::error::seen(result) == copy_room(available, expected_size, granularity),
{
    let unit: u64 = if granularity == 0 {
        1
    } else {
        granularity
    };
    let required: u64 = match round_up_estimate(expected_size, unit) {
        Ok(required) => required,
        Err(error) => {
            return Err(error);
        },
    };
    if available < required {
        return Err(
            MergeError::InvalidRequest(
                crate::text::cat5(
                    "there is not enough free space in the save folder: ",
                    decimal(available).as_str(),
                    " bytes available, ",
                    decimal(required).as_str(),
                    " bytes required",
                ),
            ),
        );
    }
    Ok(())
}

proof fn plain_data_covers_sizes(
    data: int,
    index: int,
    sizes: Seq<u64>,
    at: int,
    layouts: Seq<BlockLayoutView>,
    bounds: Map<u64, u64>,
)
    requires
        0 <= at <= sizes.len(),
        data_cost_from(data, index, sizes, at, OutputCompression::Uncompressed, layouts, bounds) is Ok,
    ensures
        data_cost_from(
            data,
            index,
            sizes,
            at,
            OutputCompression::Uncompressed,
            layouts,
            bounds,
        )->Ok_0.0 == data + sum_of(sizes) - sum_of(sizes.take(at)) + 53 * (sizes.len() - at),
        data_cost_from(
            data,
            index,
            sizes,
            at,
            OutputCompression::Uncompressed,
            layouts,
            bounds,
        )->Ok_0.1 == index + 20 * (sizes.len() - at),
    decreases sizes.len() - at,
{
    if at < sizes.len() {
        assert(sizes.take(at + 1).drop_last() =~= sizes.take(at));
        plain_data_covers_sizes(
            data + 53 + sizes[at],
            index + 20,
            sizes,
            at + 1,
            layouts,
            bounds,
        );
    } else {
        assert(sizes.take(at) =~= sizes);
    }
}

/// The estimate of an uncompressed output counts every file once with its header
/// and nothing of the inputs: it exceeds the files' bytes, and is a whole number
/// of allocation units.
pub proof fn plain_room_covers_the_files_once(
    mount: Seq<char>,
    entries: Seq<(Seq<char>, u64)>,
    layouts: Seq<BlockLayoutView>,
    bounds: Map<u64, u64>,
    unit: int,
    metadata: int,
)
    requires
        unit > 0,
        output_room(mount, entries, OutputCompression::Uncompressed, layouts, bounds, unit, metadata) is Ok,
    ensures
        ({
            let room = output_room(
                mount,
                entries,
                OutputCompression::Uncompressed,
                layouts,
                bounds,
                unit,
                metadata,
            )->Ok_0;
            let files = sum_of(sizes_of(entries)) + 53 * entries.len();
            let index = string_size(mount) + 108 + 32 * entries.len() + directory_cost(
                paths_in(entries),
            )->Ok_0 + PAK_V11_FOOTER_SIZE;
            &&& files + index <= room < files + index + unit
            &&& room % unit == 0
        }),
{
    let sizes = sizes_of(entries);
    plain_data_covers_sizes(0, 0, sizes, 0, layouts, bounds);
    assert(sizes.take(0) =~= Seq::<u64>::empty());
    let (data, index) = data_cost_from(
        0,
        0,
        sizes,
        0,
        OutputCompression::Uncompressed,
        layouts,
        bounds,
    )->Ok_0;
    let bytes = pak_bytes(mount, paths_in(entries), data, index)->Ok_0;
    rounding_does_not_shrink(bytes, unit);
    assert(rounded(bytes, unit) % unit == 0) by {
        vstd::arithmetic::div_mod::lemma_fundamental_div_mod(bytes, unit);
        let quotient = bytes / unit;
        if bytes % unit != 0 {
            assert(rounded(bytes, unit) == unit * (quotient + 1)) by (nonlinear_arith)
                requires
                    bytes == unit * quotient + bytes % unit,
                    rounded(bytes, unit) == bytes + unit - bytes % unit,
            ;
            vstd::arithmetic::div_mod::lemma_mod_multiples_basic(quotient + 1, unit);
            assert(unit * (quotient + 1) == (quotient + 1) * unit) by (nonlinear_arith);
        }
    }
}

/// The estimate of a compressed output adds to the Pak one decoded copy of every
/// file that is not empty.
pub proof fn compressed_room_adds_one_decoded_copy(
    mount: Seq<char>,
    entries: Seq<(Seq<char>, u64)>,
    layouts: Seq<BlockLayoutView>,
    bounds: Map<u64, u64>,
    unit: int,
    metadata: int,
)
    requires
        unit > 0,
        metadata >= 0,
        output_room(mount, entries, OutputCompression::Oodle, layouts, bounds, unit, metadata) is Ok,
    ensures
        ({
            let room = output_room(
                mount,
                entries,
                OutputCompression::Oodle,
                layouts,
                bounds,
                unit,
                metadata,
            )->Ok_0;
            let (data, index) = data_cost_from(
                0,
                0,
                sizes_of(entries),
                0,
                OutputCompression::Oodle,
                layouts,
                bounds,
            )->Ok_0;
            let pak = pak_bytes(mount, paths_in(entries), data, index)->Ok_0;
            room >= pak + sum_of(sizes_of(entries))
        }),
{
    let (data, index) = data_cost_from(
        0,
        0,
        sizes_of(entries),
        0,
        OutputCompression::Oodle,
        layouts,
        bounds,
    )->Ok_0;
    let pak = pak_bytes(mount, paths_in(entries), data, index)->Ok_0;
    rounding_does_not_shrink(pak, unit);
    check_room_covers(sizes_of(entries), unit, metadata);
}

proof fn check_room_covers(sizes: Seq<u64>, unit: int, metadata: int)
    requires
        unit > 0,
        metadata >= 0,
    ensures
        check_room(sizes, unit, metadata) >= sum_of(sizes),
    decreases sizes.len(),
{
    if sizes.len() > 0 {
        check_room_covers(sizes.drop_last(), unit, metadata);
        rounding_does_not_shrink(sizes.last() as int, unit);
    }
}

} // verus!
