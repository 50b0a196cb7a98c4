//! The file list of a Pak: the encoded index of versions 10 and 11 and the
//! plain index of the versions before.
use std::collections::BTreeMap;
use vstd::prelude::*;
use vstd::slice::slice_subrange;

use super::blocks::{
    blocks_fault, legacy_entry_at, parse_legacy_entry, validate_compression_blocks, CompressionBlock,
    LegacyEntryMetadata, LegacyEntryView,
};
use super::error::{corrupt, seen, unsupported, PakError, PakErrorView, Result};
use super::footer::{check, DetectedFooter, PakVersion};
use super::paths::{normal_path, normalize_entry_path, normalized_sort_key, sort_key_of};
use super::reader::{finished, fstring_at, i32_at, took, u32_at, u64_at, SliceReader, Step};
use crate::ordered::{get, put, OrderedMap};
use crate::text::{
    cat2, cat3, cat4, cat5, chars_of, debug_text, dec, decimal, decimal_usize, encode_utf16,
    hex_numeral, hex_of, lowered, quoted, text_skip, to_lowercase, utf16_of,
};

verus! {

pub const MAX_ENTRY_COUNT: u32 = 2_000_000;

/// The record of a file in an encoded index.
#[derive(Debug)]
pub struct EncodedEntry {
    pub header_offset: u64,
    pub compressed_size: u64,
    pub uncompressed_size: u64,
    pub compression_method: u32,
    pub compression_block_size: u32,
    pub block_sizes: Vec<u64>,
    pub encrypted: bool,
}

#[verifier::ext_equal]
pub struct EncodedEntryView {
    pub header_offset: u64,
    pub compressed_size: u64,
    pub uncompressed_size: u64,
    pub compression_method: u32,
    pub compression_block_size: u32,
    pub block_sizes: Seq<u64>,
    pub encrypted: bool,
}

impl View for EncodedEntry {
    type V = EncodedEntryView;

    open spec fn view(&self) -> EncodedEntryView {
        EncodedEntryView {
            header_offset: self.header_offset,
            compressed_size: self.compressed_size,
            uncompressed_size: self.uncompressed_size,
            compression_method: self.compression_method,
            compression_block_size: self.compression_block_size,
            block_sizes: self.block_sizes@,
            encrypted: self.encrypted,
        }
    }
}

/// A number of four bytes where `short` says so, else of eight.
pub open spec fn encoded_int_at(short: bool, data: Seq<u8>, at: int, context: Seq<char>) -> Step<u64> {
    if short {
        match u32_at(data, at, context) {
            Ok((value, next)) => Ok((value as u64, next)),
            Err(error) => Err(error),
        }
    } else {
        u64_at(data, at, context)
    }
}

fn read_encoded_int(cursor: &mut SliceReader, short: bool) -> (result: Result<u64>)
    requires
        old(cursor).well_formed(),
    ensures
        final(cursor).continues(old(cursor)),
        took(result, final(cursor).position as int, encoded_int_at(short, old(cursor).data@, old(cursor).position as int, old(cursor).context@)),
{
    if short {
        Ok(cursor.read_u32()? as u64)
    } else {
        cursor.read_u64()
    }
}

/// `count` more block sizes, after those read already.
pub open spec fn block_sizes_at(
    done: Seq<u64>,
    data: Seq<u8>,
    at: int,
    count: int,
    context: Seq<char>,
) -> Step<Seq<u64>>
    decreases count,
{
    if count <= 0 {
        Ok((done, at))
    } else {
        match u32_at(data, at, context) {
            Err(error) => Err(error),
            Ok((size, next)) => block_sizes_at(
                done.push(size as u64),
                data,
                next,
                count - 1,
                context,
            ),
        }
    }
}

fn read_block_sizes(cursor: &mut SliceReader, count: u32) -> (result: Result<Vec<u64>>)
    requires
        old(cursor).well_formed(),
        count <= 0xffff,
    ensures
        final(cursor).continues(old(cursor)),
        took(result, final(cursor).position as int, block_sizes_at(Seq::empty(), old(cursor).data@, old(cursor).position as int, count as int, old(cursor).context@)),
        result matches Ok(sizes) ==> sizes@.len() == count && forall|i: int| 0 <= i < sizes@.len() ==> #[trigger] sizes@[i] <= u32::MAX,
{
    let mut sizes: Vec<u64> = Vec::new();
    let mut index: u32 = 0;
    while index < count
        invariant
            index <= count,
            sizes@.len() == index,
            forall|i: int| 0 <= i < sizes@.len() ==> #[trigger] sizes@[i] <= u32::MAX,
            cursor.continues(old(cursor)),
            block_sizes_at(Seq::empty(), old(cursor).data@, old(cursor).position as int, count as int, old(cursor).context@)
                == block_sizes_at(sizes@, old(cursor).data@, cursor.position as int, count - index, old(cursor).context@),
        decreases count - index,
    {
        let size: u32 = cursor.read_u32()?;
        sizes.push(size as u64);
        index += 1;
    }
    Ok(sizes)
}

pub open spec fn total_of(sizes: Seq<u64>) -> int
    decreases sizes.len(),
{
    if sizes.len() == 0 {
        0
    } else {
        total_of(sizes.drop_last()) + sizes.last()
    }
}

fn sum_of(sizes: &Vec<u64>) -> (total: u64)
    requires
        sizes@.len() <= 0xffff,
        forall|i: int| 0 <= i < sizes@.len() ==> #[trigger] sizes@[i] <= u32::MAX,
    ensures
        total == total_of(sizes@),
{
    let mut total: u64 = 0;
    let mut at: usize = 0;
    while at < sizes.len()
        invariant
            at <= sizes@.len() <= 0xffff,
            forall|i: int| 0 <= i < sizes@.len() ==> #[trigger] sizes@[i] <= u32::MAX,
            total == total_of(sizes@.take(at as int)),
            total <= at * 0xffff_ffff,
        decreases sizes.len() - at,
    {
        proof {
            assert(sizes@.take(at as int + 1).drop_last() =~= sizes@.take(at as int));
            assert(at * 0xffff_ffff <= 0xffff * 0xffff_ffff) by (nonlinear_arith)
                requires
                    at <= 0xffff,
            ;
        }
        total = total + sizes[at];
        at += 1;
        assert((at - 1) * 0xffff_ffff + 0xffff_ffff == at * 0xffff_ffff) by (nonlinear_arith);
    }
    assert(sizes@.take(at as int) =~= sizes@);
    total
}

/// The sizes of the blocks of a compressed file: its one size where it has one
/// block and is not encrypted, else one number for each block.
pub open spec fn encoded_sizes_at(
    count: u32,
    encrypted: bool,
    compressed_size: u64,
    data: Seq<u8>,
    at: int,
    context: Seq<char>,
    path: Seq<char>,
) -> std::result::Result<Seq<u64>, PakErrorView> {
    if count == 1 && !encrypted {
        Ok(seq![compressed_size])
    } else {
        match block_sizes_at(Seq::empty(), data, at, count as int, context) {
            Err(error) => Err(error),
            Ok((sizes, _)) => if !encrypted && total_of(sizes) != compressed_size {
                corrupt(
                    "compression blocks for "@ + path + " total "@ + dec(total_of(sizes) as nat) + (
                    " bytes, expected "@ + dec(compressed_size as nat)),
                )
            } else {
                Ok(sizes)
            },
        }
    }
}

/// What an encoded record may not say of its blocks.
pub open spec fn encoded_fault(method: u32, count: u32, block_size: u32, path: Seq<char>) -> Option<
    PakErrorView,
> {
    if method == 0 && count != 0 {
        Some(
            PakErrorView::Corrupt(
                "uncompressed file "@ + path + " declares "@ + dec(count as nat)
                    + " compression blocks"@,
            ),
        )
    } else if method == 0 && block_size != 0 {
        Some(
            PakErrorView::Corrupt(
                "uncompressed file "@ + path + " declares compression block size "@ + dec(
                    block_size as nat,
                ),
            ),
        )
    } else if method != 0 && count == 0 {
        Some(
            PakErrorView::Corrupt(
                "compressed file "@ + path + " declares no compression blocks"@,
            ),
        )
    } else {
        None
    }
}

/// The record at `offset` of the encoded records.
pub open spec fn encoded_entry(records: Seq<u8>, offset: int, path: Seq<char>) -> std::result::Result<
    EncodedEntryView,
    PakErrorView,
> {
    let context = "file record"@;
    if offset >= records.len() {
        corrupt("the file record position for "@ + path + " is outside the file table"@)
    } else {
        let data = records.skip(offset);
        match u32_at(data, 0, context) {
            Err(error) => Err(error),
            Ok((bits, at1)) => {
                let method = (bits / 0x80_0000 % 64) as u32;
                let encrypted = bits / 0x40_0000 % 2 == 1;
                let count = (bits / 64 % 0x1_0000) as u32;
                let code = bits % 64;
                let block_size_step: Step<u32> = if code == 63 {
                    u32_at(data, at1, context)
                } else {
                    Ok(((code * 2048) as u32, at1))
                };
                match block_size_step {
                    Err(error) => Err(error),
                    Ok((block_size, at2)) => match encoded_int_at(
                        bits / 0x8000_0000 % 2 == 1,
                        data,
                        at2,
                        context,
                    ) {
                        Err(error) => Err(error),
                        Ok((header_offset, at3)) => match encoded_int_at(
                            bits / 0x4000_0000 % 2 == 1,
                            data,
                            at3,
                            context,
                        ) {
                            Err(error) => Err(error),
                            Ok((uncompressed_size, at4)) => {
                                let size_step: Step<u64> = if method == 0 {
                                    Ok((uncompressed_size, at4))
                                } else {
                                    encoded_int_at(bits / 0x2000_0000 % 2 == 1, data, at4, context)
                                };
                                match size_step {
                                    Err(error) => Err(error),
                                    Ok((compressed_size, at5)) => match encoded_fault(
                                        method,
                                        count,
                                        block_size,
                                        path,
                                    ) {
                                        Some(error) => Err(error),
                                        None => {
                                            let sizes_step = if method == 0 {
                                                Ok(Seq::empty())
                                            } else {
                                                encoded_sizes_at(
                                                    count,
                                                    encrypted,
                                                    compressed_size,
                                                    data,
                                                    at5,
                                                    context,
                                                    path,
                                                )
                                            };
                                            match sizes_step {
                                                Err(error) => Err(error),
                                                Ok(block_sizes) => Ok(
                                                    EncodedEntryView {
                                                        header_offset,
                                                        compressed_size,
                                                        uncompressed_size,
                                                        compression_method: method,
                                                        compression_block_size: block_size,
                                                        block_sizes,
                                                        encrypted,
                                                    },
                                                ),
                                            }
                                        },
                                    },
                                }
                            },
                        },
                    },
                }
            },
        }
    }
}

fn check_encoded(method: u32, count: u32, block_size: u32, path: &str) -> (result: Result<()>)
    ensures
        seen(result) == check(encoded_fault(method, count, block_size, path@)),
{
    if method == 0 && count != 0 {
        return Err(
            PakError::Corrupt(
                cat5(
                    "uncompressed file ",
                    path,
                    " declares ",
                    decimal(count as u64).as_str(),
                    " compression blocks",
                ),
            ),
        );
    }
    if method == 0 && block_size != 0 {
        return Err(
            PakError::Corrupt(
                cat4(
                    "uncompressed file ",
                    path,
                    " declares compression block size ",
                    decimal(block_size as u64).as_str(),
                ),
            ),
        );
    }
    if method != 0 && count == 0 {
        return Err(
            PakError::Corrupt(
                cat3("compressed file ", path, " declares no compression blocks"),
            ),
        );
    }
    Ok(())
}

pub fn parse_encoded_entry(bytes: &[u8], offset: usize, path: &str) -> (result: Result<EncodedEntry>)
    ensures
        seen(result) == encoded_entry(bytes@, offset as int, path@),
        result matches Ok(entry) ==> entry.block_sizes@.len() <= 0xffff,
{
    if offset >= bytes.len() {
        return Err(
            PakError::Corrupt(
                cat3("the file record position for ", path, " is outside the file table"),
            ),
        );
    }
    let data = slice_subrange(bytes, offset, bytes.len());
    assert(data@ == bytes@.skip(offset as int));
    let mut cursor = SliceReader::new(data, "file record");
    let bits: u32 = cursor.read_u32()?;
    let compression_method: u32 = bits / 0x80_0000 % 64;
    let encrypted = bits / 0x40_0000 % 2 == 1;
    let block_count: u32 = bits / 64 % 0x1_0000;
    let code: u32 = bits % 64;
    let compression_block_size: u32 = if code == 63 {
        cursor.read_u32()?
    } else {
        code * 2048
    };
    let header_offset: u64 = read_encoded_int(&mut cursor, bits / 0x8000_0000 % 2 == 1)?;
    let uncompressed_size: u64 = read_encoded_int(&mut cursor, bits / 0x4000_0000 % 2 == 1)?;
    let compressed_size: u64 = if compression_method == 0 {
        uncompressed_size
    } else {
        read_encoded_int(&mut cursor, bits / 0x2000_0000 % 2 == 1)?
    };
    check_encoded(compression_method, block_count, compression_block_size, path)?;
    let mut block_sizes: Vec<u64> = Vec::new();
    if compression_method != 0 {
        if block_count == 1 && !encrypted {
            block_sizes.push(compressed_size);
            assert(block_sizes@ =~= seq![compressed_size]);
        } else {
            block_sizes = read_block_sizes(&mut cursor, block_count)?;
            let block_total: u64 = sum_of(&block_sizes);
            if !encrypted && block_total != compressed_size {
                return Err(
                    PakError::Corrupt(
                        cat5(
                            "compression blocks for ",
                            path,
                            " total ",
                            decimal(block_total).as_str(),
                            cat2(" bytes, expected ", decimal(compressed_size).as_str()).as_str(),
                        ),
                    ),
                );
            }
        }
    } else {
        assert(block_sizes@ =~= Seq::empty());
    }
    Ok(
        EncodedEntry {
            header_offset,
            compressed_size,
            uncompressed_size,
            compression_method,
            compression_block_size,
            block_sizes,
            encrypted,
        },
    )
}

/// The stored sizes of blocks are those that the encoded record gives.
pub open spec fn sizes_agree(blocks: Seq<CompressionBlock>, sizes: Seq<u64>) -> bool {
    blocks.len() == sizes.len() && forall|i: int|
        0 <= i < blocks.len() ==> #[trigger] blocks[i].end - blocks[i].start == sizes[i]
}

/// The header of a stored file says what its encoded record says.
pub open spec fn header_agrees(local: LegacyEntryView, encoded: EncodedEntryView) -> bool {
    &&& local.stored_offset == 0
    &&& local.compressed_size == encoded.compressed_size
    &&& local.uncompressed_size == encoded.uncompressed_size
    &&& local.compression_method == encoded.compression_method
    &&& sizes_agree(local.blocks, encoded.block_sizes)
    &&& local.flags == (if encoded.encrypted {
        1u8
    } else {
        0
    })
    &&& local.compression_block_size == encoded.compression_block_size
}

/// The record in the header that stands before a stored file.
pub open spec fn header_record(
    archive: Seq<u8>,
    version: PakVersion,
    codecs: Seq<Option<Seq<char>>>,
    path: Seq<char>,
    offset: u64,
    header_size: u64,
    context: Seq<char>,
) -> std::result::Result<LegacyEntryView, PakErrorView> {
    let data = archive.subrange(offset as int, offset + header_size);
    match legacy_entry_at(version, codecs, path, data, 0, context) {
        Err(error) => Err(error),
        Ok((local, at)) => match finished(data, at, context) {
            Err(error) => Err(error),
            Ok(_) => match blocks_fault(local, offset, header_size, version, path) {
                Some(error) => Err(error),
                None => Ok(local),
            },
        },
    }
}

pub fn read_header_record(
    archive: &[u8],
    detected: &DetectedFooter,
    path: &str,
    offset: u64,
    header_size: u64,
    context: &'static str,
) -> (result: Result<LegacyEntryMetadata>)
    requires
        offset + header_size <= archive@.len(),
    ensures
        seen(result) == header_record(
            archive@,
            detected.version,
            detected@.compression_codecs,
            path@,
            offset,
            header_size,
            context@,
        ),
{
    let total: usize = archive.len();
    assert(offset + header_size <= total);
    let data = slice_subrange(archive, offset as usize, (offset + header_size) as usize);
    let mut cursor = SliceReader::new(data, context);
    let local = parse_legacy_entry(&mut cursor, detected, path)?;
    cursor.finish()?;
    validate_compression_blocks(&local, offset, header_size, detected.version, path)?;
    Ok(local)
}

pub open spec fn disagreement(path: Seq<char>) -> PakErrorView {
    PakErrorView::Corrupt(
        "the file header for "@ + path + " disagrees with the Pak file list"@,
    )
}

pub fn header_disagrees(path: &str) -> (error: PakError)
    ensures
        error@ == disagreement(path@),
{
    PakError::Corrupt(
        cat3("the file header for ", path, " disagrees with the Pak file list"),
    )
}

pub open spec fn local_header(
    archive: Seq<u8>,
    version: PakVersion,
    codecs: Seq<Option<Seq<char>>>,
    path: Seq<char>,
    encoded: EncodedEntryView,
    header_size: u64,
) -> std::result::Result<LegacyEntryView, PakErrorView> {
    match header_record(
        archive,
        version,
        codecs,
        path,
        encoded.header_offset,
        header_size,
        "file header"@,
    ) {
        Err(error) => Err(error),
        Ok(local) => if header_agrees(local, encoded) {
            Ok(local)
        } else {
            Err(disagreement(path))
        },
    }
}

fn same_sizes(blocks: &Vec<CompressionBlock>, sizes: &Vec<u64>) -> (result: bool)
    ensures
        result == sizes_agree(blocks@, sizes@),
{
    if blocks.len() != sizes.len() {
        return false;
    }
    let mut at: usize = 0;
    while at < blocks.len()
        invariant
            at <= blocks@.len(),
            blocks@.len() == sizes@.len(),
            forall|i: int| 0 <= i < at ==> #[trigger] blocks@[i].end - blocks@[i].start == sizes@[i],
        decreases blocks.len() - at,
    {
        let block = blocks[at];
        if block.end < block.start || block.end - block.start != sizes[at] {
            assert(blocks@[at as int].end - blocks@[at as int].start != sizes@[at as int]);
            return false;
        }
        at += 1;
    }
    true
}

pub fn validate_local_entry_header(
    archive: &[u8],
    detected: &DetectedFooter,
    path: &str,
    encoded: &EncodedEntry,
    header_size: u64,
) -> (result: Result<LegacyEntryMetadata>)
    requires
        encoded.header_offset + header_size <= archive@.len(),
    ensures
        seen(result) == local_header(
            archive@,
            detected.version,
            detected@.compression_codecs,
            path@,
            encoded@,
            header_size,
        ),
{
    let local = read_header_record(
        archive,
        detected,
        path,
        encoded.header_offset,
        header_size,
        "file header",
    )?;
    let flags: u8 = if encoded.encrypted {
        1
    } else {
        0
    };
    if local.stored_offset != 0 || local.compressed_size != encoded.compressed_size
        || local.uncompressed_size != encoded.uncompressed_size || local.compression_method
        != encoded.compression_method || !same_sizes(&local.blocks, &encoded.block_sizes)
        || local.flags != flags || local.compression_block_size != encoded.compression_block_size {
        return Err(header_disagrees(path));
    }
    Ok(local)
}

/// A path and the position of its record among the encoded records.
pub type Located = (Seq<char>, usize);

pub open spec fn located(paths: Seq<(String, usize)>) -> Seq<Located> {
    paths.map_values(|item: (String, usize)| (item.0@, item.1))
}

pub open spec fn without_slash(directory: Seq<char>) -> Seq<char> {
    if directory.len() > 0 && directory[0] == '/' {
        directory.skip(1)
    } else {
        directory
    }
}

/// The files of a directory index that were read so far.
#[verifier::ext_equal]
pub struct DirectoryState {
    pub paths: Seq<Located>,
    pub met: Seq<(Seq<char>, Seq<char>)>,
    pub at: int,
}

/// `count` more files of one directory.
pub open spec fn directory_files(
    state: DirectoryState,
    directory: Seq<char>,
    count: int,
    data: Seq<u8>,
    context: Seq<char>,
) -> std::result::Result<DirectoryState, PakErrorView>
    decreases count,
{
    if count <= 0 {
        Ok(state)
    } else {
        match fstring_at(data, state.at, context) {
            Err(error) => Err(error),
            Ok((name, at1)) => match i32_at(data, at1, context) {
                Err(error) => Err(error),
                Ok((offset, at2)) => if offset < 0 {
                    unsupported("the folder list contains an unsupported file reference"@)
                } else {
                    match normal_path(directory + name) {
                        Err(error) => Err(error),
                        Ok(path) => match get(state.met, sort_key_of(path)) {
                            Some(first) => Err(
                                PakErrorView::DuplicatePath { first, second: path },
                            ),
                            None => directory_files(
                                DirectoryState {
                                    paths: state.paths.push((path, offset as usize)),
                                    met: put(state.met, sort_key_of(path), path),
                                    at: at2,
                                },
                                directory,
                                count - 1,
                                data,
                                context,
                            ),
                        },
                    }
                },
            },
        }
    }
}

/// `count` more directories.
pub open spec fn directories(
    state: DirectoryState,
    count: int,
    data: Seq<u8>,
    context: Seq<char>,
) -> std::result::Result<DirectoryState, PakErrorView>
    decreases count,
{
    if count <= 0 {
        Ok(state)
    } else {
        match fstring_at(data, state.at, context) {
            Err(error) => Err(error),
            Ok((directory, at1)) => match u32_at(data, at1, context) {
                Err(error) => Err(error),
                Ok((files, at2)) => if files > MAX_ENTRY_COUNT || state.paths.len() + files
                    > MAX_ENTRY_COUNT {
                    unsupported("full directory index contains too many files"@)
                } else {
                    match directory_files(
                        DirectoryState { at: at2, ..state },
                        without_slash(directory),
                        files as int,
                        data,
                        context,
                    ) {
                        Err(error) => Err(error),
                        Ok(next) => directories(next, count - 1, data, context),
                    }
                },
            },
        }
    }
}

/// The paths of a full directory index, each with the position of its record.
pub open spec fn full_directory(data: Seq<u8>, expected: u32) -> std::result::Result<
    Seq<Located>,
    PakErrorView,
> {
    let context = "full directory index"@;
    match u32_at(data, 0, context) {
        Err(error) => Err(error),
        Ok((count, at)) => if count > MAX_ENTRY_COUNT {
            unsupported(
                "folder count "@ + dec(count as nat) + " exceeds limit "@ + dec(
                    MAX_ENTRY_COUNT as nat,
                ),
            )
        } else {
            match directories(
                DirectoryState { paths: Seq::empty(), met: Seq::empty(), at },
                count as int,
                data,
                context,
            ) {
                Err(error) => Err(error),
                Ok(state) => match finished(data, state.at, context) {
                    Err(error) => Err(error),
                    Ok(_) => if state.paths.len() != expected {
                        corrupt(
                            "footer/index declares "@ + dec(expected as nat)
                                + " entries but directory index contains "@ + dec(
                                state.paths.len(),
                            ),
                        )
                    } else {
                        Ok(state.paths)
                    },
                },
            }
        },
    }
}

fn strip_slash(directory: String) -> (result: String)
    ensures
        result@ == without_slash(directory@),
{
    let chars = chars_of(directory.as_str());
    if chars.len() > 0 && chars[0] == '/' {
        text_skip(directory.as_str(), 1)
    } else {
        directory
    }
}

fn read_directory_files(
    cursor: &mut SliceReader,
    paths: &mut Vec<(String, usize)>,
    met: &mut OrderedMap<String>,
    directory: &str,
    count: u32,
) -> (result: Result<()>)
    requires
        old(cursor).well_formed(),
        old(met).well_formed(),
    ensures
        final(cursor).continues(old(cursor)),
        final(met).well_formed(),
        match (
            result,
            directory_files(
                DirectoryState {
                    paths: located(old(paths)@),
                    met: old(met)@,
                    at: old(cursor).position as int,
                },
                directory@,
                count as int,
                old(cursor).data@,
                old(cursor).context@,
            ),
        ) {
            (Ok(_), Ok(state)) => state == (DirectoryState {
                paths: located(final(paths)@),
                met: final(met)@,
                at: final(cursor).position as int,
            }),
            (Err(error), Err(wanted)) => error@ == wanted,
            _ => false,
        },
{
    let mut index: u32 = 0;
    let ghost start = *cursor;
    let ghost whole = directory_files(
        DirectoryState { paths: located(paths@), met: met@, at: cursor.position as int },
        directory@,
        count as int,
        cursor.data@,
        cursor.context@,
    );
    while index < count
        invariant
            index <= count,
            start == *old(cursor),
            cursor.continues(&start),
            met.well_formed(),
            whole == directory_files(
                DirectoryState {
                    paths: located(old(paths)@),
                    met: old(met)@,
                    at: old(cursor).position as int,
                },
                directory@,
                count as int,
                old(cursor).data@,
                old(cursor).context@,
            ),
            whole == directory_files(
                DirectoryState { paths: located(paths@), met: met@, at: cursor.position as int },
                directory@,
                count - index,
                start.data@,
                start.context@,
            ),
        decreases count - index,
    {
        let name = cursor.read_fstring()?;
        let offset: i32 = cursor.read_i32()?;
        if offset < 0 {
            return Err(
                PakError::UnsupportedLayout(
                    "the folder list contains an unsupported file reference".to_owned(),
                ),
            );
        }
        let path = normalize_entry_path(cat2(directory, name.as_str()).as_str())?;
        let key = normalized_sort_key(path.as_str());
        match met.find(key.as_str()) {
            Some(place) => {
                return Err(
                    PakError::DuplicatePath { first: met.items[place].1.clone(), second: path },
                );
            },
            None => {},
        }
        let copy = path.clone();
        proof {
            assert(located(paths@.push((copy, offset as usize))) =~= located(paths@).push(
                (copy@, offset as usize),
            ));
        }
        paths.push((copy, offset as usize));
        met.insert(key, path);
        index += 1;
    }
    Ok(())
}

pub fn parse_full_directory_index(bytes: &[u8], expected_count: u32) -> (result: Result<
    Vec<(String, usize)>,
>)
    ensures
        match (result, full_directory(bytes@, expected_count)) {
            (Ok(paths), Ok(wanted)) => located(paths@) == wanted,
            (Err(error), Err(wanted)) => error@ == wanted,
            _ => false,
        },
{
    let mut cursor = SliceReader::new(bytes, "full directory index");
    let directory_count: u32 = cursor.read_u32()?;
    if directory_count > MAX_ENTRY_COUNT {
        return Err(
            PakError::UnsupportedLayout(
                cat4(
                    "folder count ",
                    decimal(directory_count as u64).as_str(),
                    " exceeds limit ",
                    decimal(MAX_ENTRY_COUNT as u64).as_str(),
                ),
            ),
        );
    }
    let mut paths: Vec<(String, usize)> = Vec::new();
    let mut met: OrderedMap<String> = OrderedMap::new();
    let mut index: u32 = 0;
    let ghost context = "full directory index"@;
    let ghost first = DirectoryState {
        paths: Seq::empty(),
        met: Seq::empty(),
        at: cursor.position as int,
    };
    proof {
        assert(located(paths@) =~= Seq::empty());
    }
    while index < directory_count
        invariant
            index <= directory_count <= MAX_ENTRY_COUNT,
            cursor.data == bytes,
            cursor.context@ == context,
            cursor.well_formed(),
            met.well_formed(),
            context == "full directory index"@,
            u32_at(bytes@, 0, context) == Ok::<(u32, int), PakErrorView>((directory_count, first.at)),
            first.paths == Seq::<Located>::empty(),
            first.met == Seq::<(Seq<char>, Seq<char>)>::empty(),
            directories(first, directory_count as int, bytes@, context) == directories(
                DirectoryState { paths: located(paths@), met: met@, at: cursor.position as int },
                directory_count - index,
                bytes@,
                context,
            ),
        decreases directory_count - index,
    {
        let directory = strip_slash(cursor.read_fstring()?);
        let file_count: u32 = cursor.read_u32()?;
        if file_count > MAX_ENTRY_COUNT || paths.len() > MAX_ENTRY_COUNT as usize || paths.len()
            + file_count as usize > MAX_ENTRY_COUNT as usize {
            return Err(
                PakError::UnsupportedLayout(
                    "full directory index contains too many files".to_owned(),
                ),
            );
        }
        read_directory_files(&mut cursor, &mut paths, &mut met, directory.as_str(), file_count)?;
        index += 1;
    }
    cursor.finish()?;
    assert(located(paths@).len() == paths@.len());
    if paths.len() != expected_count as usize {
        return Err(
            PakError::Corrupt(
                cat4(
                    "footer/index declares ",
                    decimal(expected_count as u64).as_str(),
                    " entries but directory index contains ",
                    decimal_usize(paths.len()).as_str(),
                ),
            ),
        );
    }
    Ok(paths)
}

/// `count` more records of a path hash index: the hashes under the positions of
/// their records.
pub open spec fn hash_records(
    done: Map<usize, u64>,
    at: int,
    count: int,
    encoded_size: usize,
    data: Seq<u8>,
    context: Seq<char>,
) -> Step<Map<usize, u64>>
    decreases count,
{
    if count <= 0 {
        Ok((done, at))
    } else {
        match u64_at(data, at, context) {
            Err(error) => Err(error),
            Ok((hash, at1)) => match i32_at(data, at1, context) {
                Err(error) => Err(error),
                Ok((offset, at2)) => if offset < 0 || offset >= encoded_size {
                    corrupt("the path lookup table points to an invalid file record"@)
                } else if done.dom().contains(offset as usize) {
                    corrupt(
                        "the path lookup table points to the same file record more than once"@,
                    )
                } else {
                    hash_records(
                        done.insert(offset as usize, hash),
                        at2,
                        count - 1,
                        encoded_size,
                        data,
                        context,
                    )
                },
            },
        }
    }
}

/// The hashes of a path hash index under the positions of their records.
pub open spec fn path_hashes(data: Seq<u8>, expected: u32, encoded_size: usize) -> std::result::Result<
    Map<usize, u64>,
    PakErrorView,
> {
    let context = "path hash index"@;
    match u32_at(data, 0, context) {
        Err(error) => Err(error),
        Ok((count, at)) => if count != expected {
            corrupt(
                "path hash index contains "@ + dec(count as nat) + " records; expected "@ + dec(
                    expected as nat,
                ),
            )
        } else {
            match hash_records(Map::empty(), at, count as int, encoded_size, data, context) {
                Err(error) => Err(error),
                Ok((hashes, at1)) => match u32_at(data, at1, context) {
                    Err(error) => Err(error),
                    Ok((trailing, at2)) => if trailing != 0 {
                        unsupported(
                            "path hash index contains "@ + dec(trailing as nat)
                                + " trailing records"@,
                        )
                    } else {
                        match finished(data, at2, context) {
                            Err(error) => Err(error),
                            Ok(_) => Ok(hashes),
                        }
                    },
                },
            }
        },
    }
}

pub fn parse_path_hash_index(bytes: &[u8], expected_count: u32, encoded_size: usize) -> (result: Result<
    BTreeMap<usize, u64>,
>)
    ensures
        match (result, path_hashes(bytes@, expected_count, encoded_size)) {
            (Ok(hashes), Ok(wanted)) => hashes@ == wanted,
            (Err(error), Err(wanted)) => error@ == wanted,
            _ => false,
        },
{
    broadcast use vstd::std_specs::btree::group_btree_axioms;

    let mut cursor = SliceReader::new(bytes, "path hash index");
    let count: u32 = cursor.read_u32()?;
    if count != expected_count {
        return Err(
            PakError::Corrupt(
                cat4(
                    "path hash index contains ",
                    decimal(count as u64).as_str(),
                    " records; expected ",
                    decimal(expected_count as u64).as_str(),
                ),
            ),
        );
    }
    let mut entries: BTreeMap<usize, u64> = BTreeMap::new();
    let mut index: u32 = 0;
    let ghost context = "path hash index"@;
    let ghost first = cursor.position as int;
    while index < count
        invariant
            index <= count,
            count == expected_count,
            cursor.data == bytes,
            cursor.context@ == context,
            cursor.well_formed(),
            context == "path hash index"@,
            u32_at(bytes@, 0, context) == Ok::<(u32, int), PakErrorView>((count, first)),
            hash_records(Map::empty(), first, count as int, encoded_size, bytes@, context)
                == hash_records(
                entries@,
                cursor.position as int,
                count - index,
                encoded_size,
                bytes@,
                context,
            ),
        decreases count - index,
    {
        let path_hash: u64 = cursor.read_u64()?;
        let encoded_offset: i32 = cursor.read_i32()?;
        if encoded_offset < 0 || encoded_offset as usize >= encoded_size {
            return Err(
                PakError::Corrupt(
                    "the path lookup table points to an invalid file record".to_owned(),
                ),
            );
        }
        if entries.insert(encoded_offset as usize, path_hash).is_some() {
            return Err(
                PakError::Corrupt(
                    "the path lookup table points to the same file record more than once".to_owned(),
                ),
            );
        }
        index += 1;
    }
    let trailing_count: u32 = cursor.read_u32()?;
    if trailing_count != 0 {
        return Err(
            PakError::UnsupportedLayout(
                cat3(
                    "path hash index contains ",
                    decimal(trailing_count as u64).as_str(),
                    " trailing records",
                ),
            ),
        );
    }
    cursor.finish()?;
    Ok(entries)
}

pub const FNV_OFFSET_BASIS: u64 = 0xcbf2_9ce4_8422_2325;

pub const FNV_PRIME: u64 = 0x0000_0100_0000_01b3;

pub open spec fn fnv_step(hash: u64, byte: u64) -> u64 {
    (hash ^ byte).wrapping_mul(FNV_PRIME)
}

/// FNV-1a over the little-endian bytes of 16-bit units.
pub open spec fn fnv_units(hash: u64, units: Seq<u16>) -> u64
    decreases units.len(),
{
    if units.len() == 0 {
        hash
    } else {
        fnv_units(
            fnv_step(fnv_step(hash, (units[0] % 256) as u64), (units[0] / 256) as u64),
            units.skip(1),
        )
    }
}

/// The path hash of versions 10 and 11: FNV-1a with the seed added to the
/// offset basis, over the lowercase path in UTF-16.
pub open spec fn path_hash(path: Seq<char>, seed: u64) -> u64 {
    fnv_units(FNV_OFFSET_BASIS.wrapping_add(seed), encode_utf16(lowered(path)))
}

pub fn fnv64_path(path: &str, seed: u64) -> (result: u64)
    ensures
        result == path_hash(path@, seed),
{
    let mut hash: u64 = FNV_OFFSET_BASIS.wrapping_add(seed);
    proof {
        reveal(lowered);
    }
    let lower = to_lowercase(path);
    let units = utf16_of(lower.as_str());
    let mut at: usize = 0;
    proof {
        assert(units@.skip(0) == units@);
    }
    while at < units.len()
        invariant
            at <= units@.len(),
            fnv_units(FNV_OFFSET_BASIS.wrapping_add(seed), units@) == fnv_units(
                hash,
                units@.skip(at as int),
            ),
        decreases units.len() - at,
    {
        assert(units@.skip(at as int).skip(1) == units@.skip(at as int + 1));
        let low: u64 = (units[at] % 256) as u64;
        let high: u64 = (units[at] / 256) as u64;
        hash = (hash ^ low).wrapping_mul(FNV_PRIME);
        hash = (hash ^ high).wrapping_mul(FNV_PRIME);
        at += 1;
    }
    hash
}

/// The first path whose hash is not the one that the path hash index holds.
pub open spec fn path_hash_fault(hashes: Map<usize, u64>, paths: Seq<Located>, seed: u64) -> Option<
    PakErrorView,
>
    decreases paths.len(),
{
    if paths.len() == 0 {
        None
    } else {
        let (path, offset) = paths[0];
        let at = debug_text(path) + " at file position "@ + dec(offset as nat);
        if !hashes.dom().contains(offset) {
            Some(
                PakErrorView::Corrupt("the path lookup table has no record for "@ + at),
            )
        } else if hashes[offset] != path_hash(path, seed) {
            Some(
                PakErrorView::Corrupt(
                    "the path check for "@ + at + " does not match: expected 0x"@ + hex_numeral(
                        path_hash(path, seed) as nat,
                        16,
                    ) + (", got 0x"@ + hex_numeral(hashes[offset] as nat, 16)),
                ),
            )
        } else {
            path_hash_fault(hashes, paths.skip(1), seed)
        }
    }
}

pub fn validate_path_hashes(
    hashed_entries: &BTreeMap<usize, u64>,
    path_offsets: &Vec<(String, usize)>,
    path_hash_seed: u64,
) -> (result: Result<()>)
    ensures
        seen(result) == check(
            path_hash_fault(hashed_entries@, located(path_offsets@), path_hash_seed),
        ),
{
    broadcast use vstd::std_specs::btree::group_btree_axioms;

    let mut at: usize = 0;
    let ghost all = located(path_offsets@);
    proof {
        assert(all.skip(0) == all);
    }
    while at < path_offsets.len()
        invariant
            at <= path_offsets@.len(),
            all == located(path_offsets@),
            path_hash_fault(hashed_entries@, all, path_hash_seed) == path_hash_fault(
                hashed_entries@,
                all.skip(at as int),
                path_hash_seed,
            ),
        decreases path_offsets.len() - at,
    {
        proof {
            assert(all.skip(at as int)[0] == (path_offsets@[at as int].0@, path_offsets@[at as int].1));
            assert(all.skip(at as int).skip(1) == all.skip(at as int + 1));
        }
        let path = path_offsets[at].0.as_str();
        let offset: usize = path_offsets[at].1;
        let place = cat3(
            quoted(path).as_str(),
            " at file position ",
            decimal_usize(offset).as_str(),
        );
        match hashed_entries.get(&offset) {
            None => {
                return Err(
                    PakError::Corrupt(
                        cat2("the path lookup table has no record for ", place.as_str()),
                    ),
                );
            },
            Some(stored) => {
                let expected: u64 = fnv64_path(path, path_hash_seed);
                if *stored != expected {
                    return Err(
                        PakError::Corrupt(
                            cat5(
                                "the path check for ",
                                place.as_str(),
                                " does not match: expected 0x",
                                hex_of(expected, 16).as_str(),
                                cat2(", got 0x", hex_of(*stored, 16).as_str()).as_str(),
                            ),
                        ),
                    );
                }
            },
        }
        at += 1;
    }
    Ok(())
}

} // verus!
