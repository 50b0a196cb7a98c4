//! The records of stored files: their headers, compression blocks and the plan
//! by which large blocks are decoded.
use vstd::prelude::*;

use super::error::{corrupt, seen, unsupported, PakError, PakErrorView, Result};
use super::footer::{check, DetectedFooter, PakVersion};
use crate::text::text_view;
use super::reader::{bytes_at, took, u32_at, u64_at, u8_at, SliceReader, Step};
use crate::text::{cat2, cat3, cat4, cat5, dec, decimal, hex_numeral, hex_of, same_text};

verus! {

/// Structural guard for block tables.
pub const MAX_COMPRESSION_BLOCKS: u32 = 2_000_000;

/// Larger LZ4 and Oodle blocks are decoded directly.
pub const DIRECT_DECODE_LOGICAL_BLOCK_THRESHOLD: u64 = 8_388_608;

pub const DIRECT_DECODE_STORED_BLOCK_THRESHOLD: u64 = 16_777_216;

#[derive(Debug, Clone, Copy, PartialEq, Eq, Structural)]
pub struct CompressionBlock {
    pub start: u64,
    pub end: u64,
}

/// The record of a file as its header and a legacy index hold it.
#[derive(Debug, Clone, PartialEq, Eq)]
pub struct LegacyEntryMetadata {
    pub stored_offset: u64,
    pub compressed_size: u64,
    pub uncompressed_size: u64,
    pub compression_method: u32,
    pub timestamp: Option<u64>,
    pub payload_sha1: Vec<u8>,
    pub blocks: Vec<CompressionBlock>,
    pub flags: u8,
    pub compression_block_size: u32,
}

#[verifier::ext_equal]
pub struct LegacyEntryView {
    pub stored_offset: u64,
    pub compressed_size: u64,
    pub uncompressed_size: u64,
    pub compression_method: u32,
    pub timestamp: Option<u64>,
    pub payload_sha1: Seq<u8>,
    pub blocks: Seq<CompressionBlock>,
    pub flags: u8,
    pub compression_block_size: u32,
}

impl View for LegacyEntryMetadata {
    type V = LegacyEntryView;

    open spec fn view(&self) -> LegacyEntryView {
        LegacyEntryView {
            stored_offset: self.stored_offset,
            compressed_size: self.compressed_size,
            uncompressed_size: self.uncompressed_size,
            compression_method: self.compression_method,
            timestamp: self.timestamp,
            payload_sha1: self.payload_sha1@,
            blocks: self.blocks@,
            flags: self.flags,
            compression_block_size: self.compression_block_size,
        }
    }
}

/// The codec of a compression method: the name in its slot.
pub open spec fn method_name(codecs: Seq<Option<Seq<char>>>, method: u32) -> Option<Seq<char>> {
    if method == 0 || method > codecs.len() {
        None
    } else {
        codecs[method - 1]
    }
}

pub open spec fn is_known_codec(name: Seq<char>) -> bool {
    name == "Zlib"@ || name == "Gzip"@ || name == "Zstd"@ || name == "LZ4"@ || name == "Oodle"@
}

/// A method must be 0 or name a known codec.
pub open spec fn method_fault(codecs: Seq<Option<Seq<char>>>, method: u32, path: Seq<char>) -> Option<
    PakErrorView,
> {
    if method == 0 {
        None
    } else {
        match method_name(codecs, method) {
            None => Some(
                PakErrorView::UnsupportedCompression {
                    path,
                    method: "unknown slot "@ + dec(method as nat),
                },
            ),
            Some(name) => if is_known_codec(name) {
                None
            } else {
                Some(PakErrorView::UnsupportedCompression { path, method: name })
            },
        }
    }
}

pub fn compression_method_name(detected: &DetectedFooter, compression_method: u32) -> (result: Option<
    &String,
>)
    ensures
        match (result, method_name(detected@.compression_codecs, compression_method)) {
            (Some(name), Some(wanted)) => name@ == wanted,
            (None, None) => true,
            _ => false,
        },
{
    if compression_method == 0 || compression_method as u64 > detected.compression_codecs.len() as u64 {
        return None;
    }
    let slot: usize = (compression_method - 1) as usize;
    assert(detected@.compression_codecs[slot as int] == text_view(
        detected.compression_codecs@[slot as int],
    ));
    detected.compression_codecs[slot].as_ref()
}

pub fn validate_compression_method(
    detected: &DetectedFooter,
    compression_method: u32,
    path: &str,
) -> (result: Result<()>)
    ensures
        seen(result) == check(
            method_fault(detected@.compression_codecs, compression_method, path@),
        ),
{
    if compression_method == 0 {
        return Ok(());
    }
    match compression_method_name(detected, compression_method) {
        None => Err(
            PakError::UnsupportedCompression {
                path: path.to_owned(),
                method: cat2("unknown slot ", decimal(compression_method as u64).as_str()),
            },
        ),
        Some(method) => {
            let name = method.as_str();
            if same_text(name, "Zlib") || same_text(name, "Gzip") || same_text(name, "Zstd")
                || same_text(name, "LZ4") || same_text(name, "Oodle") {
                Ok(())
            } else {
                Err(
                    PakError::UnsupportedCompression {
                        path: path.to_owned(),
                        method: method.clone(),
                    },
                )
            }
        },
    }
}

/// `count` more block records, after those read already.
pub open spec fn blocks_at(
    done: Seq<CompressionBlock>,
    data: Seq<u8>,
    at: int,
    count: int,
    context: Seq<char>,
) -> Step<Seq<CompressionBlock>>
    decreases count,
{
    if count <= 0 {
        Ok((done, at))
    } else {
        match u64_at(data, at, context) {
            Err(error) => Err(error),
            Ok((start, middle)) => match u64_at(data, middle, context) {
                Err(error) => Err(error),
                Ok((end, next)) => blocks_at(
                    done.push(CompressionBlock { start, end }),
                    data,
                    next,
                    count - 1,
                    context,
                ),
            },
        }
    }
}

fn read_blocks(cursor: &mut SliceReader, count: u32) -> (result: Result<Vec<CompressionBlock>>)
    requires
        old(cursor).well_formed(),
    ensures
        final(cursor).continues(old(cursor)),
        took(result, final(cursor).position as int, blocks_at(Seq::empty(), old(cursor).data@, old(cursor).position as int, count as int, old(cursor).context@)),
{
    let mut blocks: Vec<CompressionBlock> = Vec::new();
    let mut index: u32 = 0;
    let ghost start = *cursor;
    while index < count
        invariant
            index <= count,
            start == *old(cursor),
            cursor.continues(&start),
            blocks_at(Seq::empty(), start.data@, start.position as int, count as int, start.context@)
                == blocks_at(blocks@, start.data@, cursor.position as int, count - index, start.context@),
        decreases count - index,
    {
        let block_start: u64 = cursor.read_u64()?;
        let block_end: u64 = cursor.read_u64()?;
        blocks.push(CompressionBlock { start: block_start, end: block_end });
        index += 1;
    }
    Ok(blocks)
}

/// The method field has one byte in the first layout of version 8, four in the
/// others.
pub open spec fn method_at(version: PakVersion, data: Seq<u8>, at: int, context: Seq<char>) -> Step<u32> {
    if version == PakVersion::V8A {
        match u8_at(data, at, context) {
            Ok((method, next)) => Ok((method as u32, next)),
            Err(error) => Err(error),
        }
    } else {
        u32_at(data, at, context)
    }
}

/// Version 1 alone has a time stamp.
pub open spec fn timestamp_at(version: PakVersion, data: Seq<u8>, at: int, context: Seq<char>) -> Step<
    Option<u64>,
> {
    if version.number() == 1 {
        match u64_at(data, at, context) {
            Ok((stamp, next)) => Ok((Some(stamp), next)),
            Err(error) => Err(error),
        }
    } else {
        Ok((None, at))
    }
}

/// From version 3 on a compressed file has a block table.
pub open spec fn block_table_at(
    version: PakVersion,
    method: u32,
    path: Seq<char>,
    data: Seq<u8>,
    at: int,
    context: Seq<char>,
) -> Step<Seq<CompressionBlock>> {
    if version.number() >= 3 && method != 0 {
        match u32_at(data, at, context) {
            Err(error) => Err(error),
            Ok((count, next)) => if count > MAX_COMPRESSION_BLOCKS {
                unsupported(
                    "file "@ + path + " has "@ + dec(count as nat) + (
                    " compression blocks (limit "@ + dec(MAX_COMPRESSION_BLOCKS as nat) + ")"@),
                )
            } else {
                blocks_at(Seq::empty(), data, next, count as int, context)
            },
        }
    } else {
        Ok((Seq::empty(), at))
    }
}

/// What the flags and the block size of a file may not be.
pub open spec fn flags_fault(
    method: u32,
    blocks: int,
    flags: u8,
    block_size: u32,
    path: Seq<char>,
) -> Option<PakErrorView> {
    if flags % 2 == 1 {
        Some(PakErrorView::EncryptedEntry { path })
    } else if flags / 2 % 2 == 1 {
        Some(
            PakErrorView::UnsupportedLayout(
                "delete record cannot be merged as a Pak file: "@ + path,
            ),
        )
    } else if flags > 3 {
        Some(
            PakErrorView::Corrupt(
                "file "@ + path + " has unknown flags 0x"@ + hex_numeral(flags as nat, 2),
            ),
        )
    } else if method == 0 && block_size != 0 {
        Some(
            PakErrorView::Corrupt(
                "uncompressed file "@ + path + " has a non-zero compression block size "@ + dec(
                    block_size as nat,
                ),
            ),
        )
    } else if method != 0 && blocks > 1 && block_size == 0 {
        Some(
            PakErrorView::Corrupt(
                "compressed file "@ + path + " has multiple blocks but a zero block size"@,
            ),
        )
    } else {
        None
    }
}

/// From version 3 on a file has flags and a block size.
pub open spec fn flags_at(
    version: PakVersion,
    method: u32,
    blocks: int,
    path: Seq<char>,
    data: Seq<u8>,
    at: int,
    context: Seq<char>,
) -> Step<(u8, u32)> {
    if version.number() >= 3 {
        match u8_at(data, at, context) {
            Err(error) => Err(error),
            Ok((flags, middle)) => match u32_at(data, middle, context) {
                Err(error) => Err(error),
                Ok((block_size, next)) => match flags_fault(method, blocks, flags, block_size, path) {
                    Some(error) => Err(error),
                    None => Ok(((flags, block_size), next)),
                },
            },
        }
    } else {
        Ok(((0u8, 0u32), at))
    }
}

/// A method that cannot be read, or sizes that differ where nothing is
/// compressed.
pub open spec fn sizes_fault(
    codecs: Seq<Option<Seq<char>>>,
    method: u32,
    compressed_size: u64,
    uncompressed_size: u64,
    path: Seq<char>,
) -> Option<PakErrorView> {
    match method_fault(codecs, method, path) {
        Some(error) => Some(error),
        None => if method == 0 && compressed_size != uncompressed_size {
            Some(
                PakErrorView::Corrupt(
                    "uncompressed file "@ + path + " has different stored and logical sizes"@,
                ),
            )
        } else {
            None
        },
    }
}

/// The record of the file at `path`.
pub open spec fn legacy_entry_at(
    version: PakVersion,
    codecs: Seq<Option<Seq<char>>>,
    path: Seq<char>,
    data: Seq<u8>,
    at: int,
    context: Seq<char>,
) -> Step<LegacyEntryView> {
    match u64_at(data, at, context) {
        Err(error) => Err(error),
        Ok((stored_offset, at1)) => match u64_at(data, at1, context) {
            Err(error) => Err(error),
            Ok((compressed_size, at2)) => match u64_at(data, at2, context) {
                Err(error) => Err(error),
                Ok((uncompressed_size, at3)) => match method_at(version, data, at3, context) {
                    Err(error) => Err(error),
                    Ok((compression_method, at4)) => match timestamp_at(version, data, at4, context) {
                        Err(error) => Err(error),
                        Ok((timestamp, at5)) => match bytes_at(data, at5, 20, context) {
                            Err(error) => Err(error),
                            Ok((payload_sha1, at6)) => match sizes_fault(
                                codecs,
                                compression_method,
                                compressed_size,
                                uncompressed_size,
                                path,
                            ) {
                                Some(error) => Err(error),
                                None => match block_table_at(
                                    version,
                                    compression_method,
                                    path,
                                    data,
                                    at6,
                                    context,
                                ) {
                                    Err(error) => Err(error),
                                    Ok((blocks, at7)) => match flags_at(
                                        version,
                                        compression_method,
                                        blocks.len() as int,
                                        path,
                                        data,
                                        at7,
                                        context,
                                    ) {
                                        Err(error) => Err(error),
                                        Ok(((flags, compression_block_size), at8)) => Ok(
                                            (
                                                LegacyEntryView {
                                                    stored_offset,
                                                    compressed_size,
                                                    uncompressed_size,
                                                    compression_method,
                                                    timestamp,
                                                    payload_sha1,
                                                    blocks,
                                                    flags,
                                                    compression_block_size,
                                                },
                                                at8,
                                            ),
                                        ),
                                    },
                                },
                            },
                        },
                    },
                },
            },
        },
    }
}

fn check_flags(method: u32, blocks: usize, flags: u8, block_size: u32, path: &str) -> (result: Result<
    (),
>)
    ensures
        seen(result) == check(flags_fault(method, blocks as int, flags, block_size, path@)),
{
    if flags % 2 == 1 {
        return Err(PakError::EncryptedEntry { path: path.to_owned() });
    }
    if flags / 2 % 2 == 1 {
        return Err(
            PakError::UnsupportedLayout(
                cat2("delete record cannot be merged as a Pak file: ", path),
            ),
        );
    }
    if flags > 3 {
        return Err(
            PakError::Corrupt(
                cat4("file ", path, " has unknown flags 0x", hex_of(flags as u64, 2).as_str()),
            ),
        );
    }
    if method == 0 && block_size != 0 {
        return Err(
            PakError::Corrupt(
                cat4(
                    "uncompressed file ",
                    path,
                    " has a non-zero compression block size ",
                    decimal(block_size as u64).as_str(),
                ),
            ),
        );
    }
    if method != 0 && blocks > 1 && block_size == 0 {
        return Err(
            PakError::Corrupt(
                cat3("compressed file ", path, " has multiple blocks but a zero block size"),
            ),
        );
    }
    Ok(())
}

fn read_block_table(cursor: &mut SliceReader, version: PakVersion, method: u32, path: &str) -> (result:
    Result<Vec<CompressionBlock>>)
    requires
        old(cursor).well_formed(),
    ensures
        final(cursor).continues(old(cursor)),
        took(result, final(cursor).position as int, block_table_at(version, method, path@, old(cursor).data@, old(cursor).position as int, old(cursor).context@)),
{
    if version.version_major() >= 3 && method != 0 {
        let count: u32 = cursor.read_u32()?;
        if count > MAX_COMPRESSION_BLOCKS {
            return Err(
                PakError::UnsupportedLayout(
                    cat5(
                        "file ",
                        path,
                        " has ",
                        decimal(count as u64).as_str(),
                        cat3(
                            " compression blocks (limit ",
                            decimal(MAX_COMPRESSION_BLOCKS as u64).as_str(),
                            ")",
                        ).as_str(),
                    ),
                ),
            );
        }
        read_blocks(cursor, count)
    } else {
        Ok(Vec::new())
    }
}

pub fn parse_legacy_entry(cursor: &mut SliceReader, detected: &DetectedFooter, path: &str) -> (result:
    Result<LegacyEntryMetadata>)
    requires
        old(cursor).well_formed(),
    ensures
        final(cursor).continues(old(cursor)),
        took(result, final(cursor).position as int, legacy_entry_at(detected.version, detected@.compression_codecs, path@, old(cursor).data@, old(cursor).position as int, old(cursor).context@)),
{
    let version = detected.version;
    let stored_offset: u64 = cursor.read_u64()?;
    let compressed_size: u64 = cursor.read_u64()?;
    let uncompressed_size: u64 = cursor.read_u64()?;
    let compression_method: u32 = if version == PakVersion::V8A {
        cursor.read_u8()? as u32
    } else {
        cursor.read_u32()?
    };
    let timestamp: Option<u64> = if version.version_major() == 1 {
        Some(cursor.read_u64()?)
    } else {
        None
    };
    let payload_sha1 = cursor.read_array_20()?;
    validate_compression_method(detected, compression_method, path)?;
    if compression_method == 0 && compressed_size != uncompressed_size {
        return Err(
            PakError::Corrupt(
                cat3("uncompressed file ", path, " has different stored and logical sizes"),
            ),
        );
    }
    let blocks = read_block_table(cursor, version, compression_method, path)?;
    let mut flags: u8 = 0;
    let mut compression_block_size: u32 = 0;
    if version.version_major() >= 3 {
        flags = cursor.read_u8()?;
        compression_block_size = cursor.read_u32()?;
        check_flags(compression_method, blocks.len(), flags, compression_block_size, path)?;
    }
    Ok(
        LegacyEntryMetadata {
            stored_offset,
            compressed_size,
            uncompressed_size,
            compression_method,
            timestamp,
            payload_sha1,
            blocks,
            flags,
            compression_block_size,
        },
    )
}

/// How many bytes the header of a stored file has.
pub open spec fn header_len(version: PakVersion, compressed: bool, block_count: int) -> int {
    24 + (if version == PakVersion::V8A {
        1int
    } else {
        4
    }) + (if version.number() == 1 {
        8int
    } else {
        0
    }) + 20 + (if version.number() >= 3 && compressed {
        4 + 16 * block_count
    } else {
        0
    }) + (if version.number() >= 3 {
        5int
    } else {
        0
    })
}

pub open spec fn header_size_of(version: PakVersion, compressed: bool, block_count: u32) -> std::result::Result<
    u64,
    PakErrorView,
> {
    if block_count > MAX_COMPRESSION_BLOCKS {
        unsupported(
            "compression block count "@ + dec(block_count as nat) + " exceeds limit "@ + dec(
                MAX_COMPRESSION_BLOCKS as nat,
            ),
        )
    } else {
        Ok(header_len(version, compressed, block_count as int) as u64)
    }
}

pub fn serialized_entry_header_size(version: PakVersion, compressed: bool, block_count: u32) -> (result:
    Result<u64>)
    ensures
        seen(result) == header_size_of(version, compressed, block_count),
{
    if block_count > MAX_COMPRESSION_BLOCKS {
        return Err(
            PakError::UnsupportedLayout(
                cat4(
                    "compression block count ",
                    decimal(block_count as u64).as_str(),
                    " exceeds limit ",
                    decimal(MAX_COMPRESSION_BLOCKS as u64).as_str(),
                ),
            ),
        );
    }
    let number: u32 = version.version_major();
    let mut size: u64 = if version == PakVersion::V8A {
        45
    } else {
        48
    };
    if number == 1 {
        size += 8;
    }
    if number >= 3 && compressed {
        size += 4 + 16 * (block_count as u64);
    }
    if number >= 3 {
        size += 5;
    }
    Ok(size)
}

/// The end of the last block, where blocks follow one another from `start`.
pub open spec fn chained_from(blocks: Seq<CompressionBlock>, start: int) -> Option<int>
    decreases blocks.len(),
{
    if blocks.len() == 0 {
        Some(start)
    } else if blocks[0].start != start || blocks[0].end < blocks[0].start {
        None
    } else {
        chained_from(blocks.skip(1), blocks[0].end as int)
    }
}

/// What compression metadata of a stored file contradicts itself.
pub open spec fn blocks_fault(
    entry: LegacyEntryView,
    physical_offset: u64,
    header_size: u64,
    version: PakVersion,
    path: Seq<char>,
) -> Option<PakErrorView> {
    let first = if version.number() >= 5 {
        header_size as int
    } else {
        physical_offset + header_size
    };
    if entry.compression_method == 0 {
        if entry.blocks.len() > 0 || entry.compressed_size != entry.uncompressed_size {
            Some(
                PakErrorView::Corrupt("uncompressed file "@ + path + " has compression metadata"@),
            )
        } else {
            None
        }
    } else if version.number() < 3 {
        if entry.blocks.len() > 0 {
            Some(
                PakErrorView::Corrupt(
                    "old-format compressed file "@ + path + " unexpectedly has a block table"@,
                ),
            )
        } else {
            None
        }
    } else if entry.blocks.len() == 0 {
        Some(PakErrorView::Corrupt("compressed file "@ + path + " has an empty block table"@))
    } else if first > u64::MAX {
        Some(PakErrorView::Corrupt("compression block offset overflow"@))
    } else {
        match chained_from(entry.blocks, first) {
            None => Some(
                PakErrorView::Corrupt("compression blocks for "@ + path + " are not contiguous"@),
            ),
            Some(end) => if end - first != entry.compressed_size {
                Some(
                    PakErrorView::Corrupt(
                        "compression blocks for "@ + path + " total "@ + dec((end - first) as nat) + (
                        " bytes, expected "@ + dec(entry.compressed_size as nat)),
                    ),
                )
            } else {
                None
            },
        }
    }
}

pub fn validate_compression_blocks(
    entry: &LegacyEntryMetadata,
    physical_entry_offset: u64,
    header_size: u64,
    version: PakVersion,
    path: &str,
) -> (result: Result<()>)
    ensures
        seen(result) == check(
            blocks_fault(entry@, physical_entry_offset, header_size, version, path@),
        ),
{
    if entry.compression_method == 0 {
        if entry.blocks.len() > 0 || entry.compressed_size != entry.uncompressed_size {
            return Err(
                PakError::Corrupt(
                    cat3("uncompressed file ", path, " has compression metadata"),
                ),
            );
        }
        return Ok(());
    }
    let number: u32 = version.version_major();
    if number < 3 {
        if entry.blocks.len() > 0 {
            return Err(
                PakError::Corrupt(
                    cat3(
                        "old-format compressed file ",
                        path,
                        " unexpectedly has a block table",
                    ),
                ),
            );
        }
        return Ok(());
    }
    if entry.blocks.len() == 0 {
        return Err(
            PakError::Corrupt(cat3("compressed file ", path, " has an empty block table")),
        );
    }
    let first: u64 = if number >= 5 {
        header_size
    } else {
        match physical_entry_offset.checked_add(header_size) {
            Some(first) => first,
            None => {
                return Err(PakError::Corrupt("compression block offset overflow".to_owned()));
            },
        }
    };
    let mut expected_start: u64 = first;
    let mut index: usize = 0;
    proof {
        assert(entry.blocks@.skip(0) == entry.blocks@);
    }
    while index < entry.blocks.len()
        invariant
            index <= entry.blocks@.len(),
            first <= expected_start,
            chained_from(entry.blocks@, first as int) == chained_from(
                entry.blocks@.skip(index as int),
                expected_start as int,
            ),
            !(entry@.compression_method == 0),
            version.number() >= 3,
            entry.blocks@.len() > 0,
            first == if version.number() >= 5 {
                header_size as int
            } else {
                physical_entry_offset + header_size
            },
        decreases entry.blocks.len() - index,
    {
        let block = entry.blocks[index];
        proof {
            assert(entry.blocks@.skip(index as int)[0] == block);
            assert(entry.blocks@.skip(index as int).skip(1) == entry.blocks@.skip(index as int + 1));
        }
        if block.start != expected_start || block.end < block.start {
            return Err(
                PakError::Corrupt(
                    cat3("compression blocks for ", path, " are not contiguous"),
                ),
            );
        }
        expected_start = block.end;
        index += 1;
    }
    let total: u64 = expected_start - first;
    if total != entry.compressed_size {
        return Err(
            PakError::Corrupt(
                cat5(
                    "compression blocks for ",
                    path,
                    " total ",
                    decimal(total).as_str(),
                    cat2(" bytes, expected ", decimal(entry.compressed_size).as_str()).as_str(),
                ),
            ),
        );
    }
    Ok(())
}

#[derive(Debug, Clone, Copy, PartialEq, Eq, Structural)]
pub enum DirectDecodeCodec {
    Lz4,
    Oodle,
}

/// Where one block is stored in the archive and where its bytes stand in the
/// file.
#[derive(Debug, Clone, Copy, PartialEq, Eq, Structural)]
pub struct DirectDecodeBlock {
    pub stored_start: u64,
    pub stored_end: u64,
    pub output_start: u64,
    pub output_end: u64,
}

#[derive(Debug, Clone, PartialEq, Eq)]
pub struct DirectDecodePlan {
    pub codec: DirectDecodeCodec,
    pub blocks: Vec<DirectDecodeBlock>,
}

#[verifier::ext_equal]
pub struct DirectDecodePlanView {
    pub codec: DirectDecodeCodec,
    pub blocks: Seq<DirectDecodeBlock>,
}

impl View for DirectDecodePlan {
    type V = DirectDecodePlanView;

    open spec fn view(&self) -> DirectDecodePlanView {
        DirectDecodePlanView { codec: self.codec, blocks: self.blocks@ }
    }
}

pub open spec fn plan_view(plan: Option<DirectDecodePlan>) -> Option<DirectDecodePlanView> {
    match plan {
        Some(plan) => Some(plan@),
        None => None,
    }
}

pub open spec fn direct_codec(name: Option<Seq<char>>) -> Option<DirectDecodeCodec> {
    match name {
        Some(name) => if name == "LZ4"@ {
            Some(DirectDecodeCodec::Lz4)
        } else if name == "Oodle"@ {
            Some(DirectDecodeCodec::Oodle)
        } else {
            None
        },
        None => None,
    }
}

/// Above either threshold a block is decoded directly.
pub open spec fn is_large(logical: int, stored: int, logical_threshold: u64, stored_threshold: u64) -> bool {
    logical > logical_threshold || stored > stored_threshold
}

/// The next blocks of a plan: each is stored within the payload and holds the
/// next bytes of the file, `block_size` of them but for the last.
pub open spec fn direct_blocks_from(
    done: Seq<DirectDecodeBlock>,
    large: bool,
    output: int,
    rest: Seq<CompressionBlock>,
    base: int,
    payload_start: int,
    payload_end: int,
    size: int,
    block_size: int,
    logical_threshold: u64,
    stored_threshold: u64,
    path: Seq<char>,
) -> std::result::Result<(Seq<DirectDecodeBlock>, bool, int), PakErrorView>
    decreases rest.len(),
{
    if rest.len() == 0 {
        Ok((done, large, output))
    } else {
        let start = base + rest[0].start;
        let end = base + rest[0].end;
        if start > u64::MAX {
            corrupt("compression block position overflow"@)
        } else if end > u64::MAX {
            corrupt("compression block range overflow"@)
        } else if start < payload_start || end < start || end > payload_end {
            corrupt("compression block for "@ + path + " is outside its stored payload"@)
        } else {
            let logical = if size - output < block_size {
                size - output
            } else {
                block_size
            };
            direct_blocks_from(
                done.push(
                    DirectDecodeBlock {
                        stored_start: start as u64,
                        stored_end: end as u64,
                        output_start: output as u64,
                        output_end: (output + logical) as u64,
                    },
                ),
                large || is_large(logical, end - start, logical_threshold, stored_threshold),
                output + logical,
                rest.skip(1),
                base,
                payload_start,
                payload_end,
                size,
                block_size,
                logical_threshold,
                stored_threshold,
                path,
            )
        }
    }
}

/// How many blocks of `block_size` cover `size` bytes.
pub open spec fn block_count_for(size: int, block_size: int) -> int {
    if size % block_size == 0 {
        size / block_size
    } else {
        size / block_size + 1
    }
}

/// The plan of a stored file: none unless its codec is LZ4 or Oodle and one of
/// its blocks is large.
pub open spec fn direct_plan_of(
    entry: LegacyEntryView,
    physical_offset: u64,
    header_size: u64,
    version: PakVersion,
    codecs: Seq<Option<Seq<char>>>,
    path: Seq<char>,
    logical_threshold: u64,
    stored_threshold: u64,
) -> std::result::Result<Option<DirectDecodePlanView>, PakErrorView> {
    match direct_codec(method_name(codecs, entry.compression_method)) {
        None => Ok(None),
        Some(codec) => {
            let payload_start = physical_offset + header_size;
            let payload_end = payload_start + entry.compressed_size;
            let size = entry.uncompressed_size as int;
            let block_size = entry.compression_block_size as int;
            if payload_start > u64::MAX {
                corrupt("compressed payload position overflow"@)
            } else if payload_end > u64::MAX {
                corrupt("compressed payload range overflow"@)
            } else if version.number() < 3 {
                if entry.blocks.len() > 0 {
                    corrupt(
                        "old-format compressed file "@ + path + " unexpectedly has a block table"@,
                    )
                } else if size == 0 {
                    if entry.compressed_size != 0 {
                        corrupt(
                            "compressed file "@ + path + " stores data for an empty logical file"@,
                        )
                    } else {
                        Ok(None)
                    }
                } else if is_large(
                    size,
                    entry.compressed_size as int,
                    logical_threshold,
                    stored_threshold,
                ) {
                    Ok(
                        Some(
                            DirectDecodePlanView {
                                codec,
                                blocks: seq![
                                    DirectDecodeBlock {
                                        stored_start: payload_start as u64,
                                        stored_end: payload_end as u64,
                                        output_start: 0,
                                        output_end: entry.uncompressed_size,
                                    },
                                ],
                            },
                        ),
                    )
                } else {
                    Ok(None)
                }
            } else if size == 0 {
                corrupt("compressed file "@ + path + " declares an empty logical payload"@)
            } else if block_size == 0 {
                corrupt("compressed file "@ + path + " has a zero logical block size"@)
            } else if entry.blocks.len() != block_count_for(size, block_size) {
                corrupt(
                    "compressed file "@ + path + " has "@ + dec(entry.blocks.len()) + (
                    " blocks, expected "@ + dec(block_count_for(size, block_size) as nat)),
                )
            } else {
                let base = if version.number() >= 5 {
                    physical_offset as int
                } else {
                    0
                };
                match direct_blocks_from(
                    Seq::empty(),
                    false,
                    0,
                    entry.blocks,
                    base,
                    payload_start,
                    payload_end,
                    size,
                    block_size,
                    logical_threshold,
                    stored_threshold,
                    path,
                ) {
                    Err(error) => Err(error),
                    Ok((blocks, large, output)) => if output != size {
                        corrupt(
                            "compression blocks for "@ + path + " cover "@ + dec(output as nat) + (
                            " logical bytes, expected "@ + dec(size as nat)),
                        )
                    } else if large {
                        Ok(Some(DirectDecodePlanView { codec, blocks }))
                    } else {
                        Ok(None)
                    },
                }
            }
        },
    }
}

fn direct_codec_of(name: Option<&String>) -> (result: Option<DirectDecodeCodec>)
    ensures
        result == direct_codec(
            match name {
                Some(name) => Some(name@),
                None => None,
            },
        ),
{
    match name {
        Some(name) => if same_text(name.as_str(), "LZ4") {
            Some(DirectDecodeCodec::Lz4)
        } else if same_text(name.as_str(), "Oodle") {
            Some(DirectDecodeCodec::Oodle)
        } else {
            None
        },
        None => None,
    }
}

pub fn build_direct_decode_plan_with_thresholds(
    entry: &LegacyEntryMetadata,
    physical_entry_offset: u64,
    header_size: u64,
    detected: &DetectedFooter,
    path: &str,
    logical_threshold: u64,
    stored_threshold: u64,
) -> (result: Result<Option<DirectDecodePlan>>)
    ensures
        match (
            result,
            direct_plan_of(
                entry@,
                physical_entry_offset,
                header_size,
                detected.version,
                detected@.compression_codecs,
                path@,
                logical_threshold,
                stored_threshold,
            ),
        ) {
            (Ok(plan), Ok(wanted)) => plan_view(plan) == wanted,
            (Err(error), Err(wanted)) => error@ == wanted,
            _ => false,
        },
{
    let codec = match direct_codec_of(
        compression_method_name(detected, entry.compression_method),
    ) {
        Some(codec) => codec,
        None => {
            return Ok(None);
        },
    };
    let payload_start: u64 = match physical_entry_offset.checked_add(header_size) {
        Some(payload_start) => payload_start,
        None => {
            return Err(PakError::Corrupt("compressed payload position overflow".to_owned()));
        },
    };
    let payload_end: u64 = match payload_start.checked_add(entry.compressed_size) {
        Some(payload_end) => payload_end,
        None => {
            return Err(PakError::Corrupt("compressed payload range overflow".to_owned()));
        },
    };
    let number: u32 = detected.version.version_major();
    if number < 3 {
        if entry.blocks.len() > 0 {
            return Err(
                PakError::Corrupt(
                    cat3(
                        "old-format compressed file ",
                        path,
                        " unexpectedly has a block table",
                    ),
                ),
            );
        }
        if entry.uncompressed_size == 0 {
            if entry.compressed_size != 0 {
                return Err(
                    PakError::Corrupt(
                        cat3("compressed file ", path, " stores data for an empty logical file"),
                    ),
                );
            }
            return Ok(None);
        }
        if entry.uncompressed_size > logical_threshold || entry.compressed_size > stored_threshold {
            let mut blocks: Vec<DirectDecodeBlock> = Vec::new();
            blocks.push(
                DirectDecodeBlock {
                    stored_start: payload_start,
                    stored_end: payload_end,
                    output_start: 0,
                    output_end: entry.uncompressed_size,
                },
            );
            return Ok(Some(DirectDecodePlan { codec, blocks }));
        }
        return Ok(None);
    }
    if entry.uncompressed_size == 0 {
        return Err(
            PakError::Corrupt(
                cat3("compressed file ", path, " declares an empty logical payload"),
            ),
        );
    }
    let block_size: u64 = entry.compression_block_size as u64;
    if block_size == 0 {
        return Err(
            PakError::Corrupt(cat3("compressed file ", path, " has a zero logical block size")),
        );
    }
    let expected_count: u64 = if entry.uncompressed_size % block_size == 0 {
        entry.uncompressed_size / block_size
    } else {
        proof {
            assert(entry.uncompressed_size / block_size <= entry.uncompressed_size)
                by (nonlinear_arith)
                requires
                    block_size > 0,
            ;
            if block_size == 1 {
                assert(entry.uncompressed_size % 1 == 0);
            }
            assert(entry.uncompressed_size / block_size < u64::MAX) by (nonlinear_arith)
                requires
                    block_size > 1,
                    entry.uncompressed_size <= u64::MAX,
            ;
        }
        entry.uncompressed_size / block_size + 1
    };
    if entry.blocks.len() as u64 != expected_count {
        return Err(
            PakError::Corrupt(
                cat5(
                    "compressed file ",
                    path,
                    " has ",
                    decimal(entry.blocks.len() as u64).as_str(),
                    cat2(" blocks, expected ", decimal(expected_count).as_str()).as_str(),
                ),
            ),
        );
    }
    let base: u64 = if number >= 5 {
        physical_entry_offset
    } else {
        0
    };
    let mut direct_blocks: Vec<DirectDecodeBlock> = Vec::new();
    let mut output_start: u64 = 0;
    let mut requires_direct = false;
    let mut index: usize = 0;
    let ghost whole = direct_blocks_from(
        Seq::empty(),
        false,
        0,
        entry.blocks@,
        base as int,
        payload_start as int,
        payload_end as int,
        entry.uncompressed_size as int,
        block_size as int,
        logical_threshold,
        stored_threshold,
        path@,
    );
    let ghost wanted = direct_plan_of(
        entry@,
        physical_entry_offset,
        header_size,
        detected.version,
        detected@.compression_codecs,
        path@,
        logical_threshold,
        stored_threshold,
    );
    proof {
        assert(entry.blocks@.skip(0) == entry.blocks@);
    }
    while index < entry.blocks.len()
        invariant
            index <= entry.blocks@.len(),
            output_start <= entry.uncompressed_size,
            whole is Err ==> wanted is Err && wanted->Err_0 == whole->Err_0,
            whole == direct_blocks_from(
                direct_blocks@,
                requires_direct,
                output_start as int,
                entry.blocks@.skip(index as int),
                base as int,
                payload_start as int,
                payload_end as int,
                entry.uncompressed_size as int,
                block_size as int,
                logical_threshold,
                stored_threshold,
                path@,
            ),
            wanted == direct_plan_of(
                entry@,
                physical_entry_offset,
                header_size,
                detected.version,
                detected@.compression_codecs,
                path@,
                logical_threshold,
                stored_threshold,
            ),
        decreases entry.blocks.len() - index,
    {
        let block = entry.blocks[index];
        proof {
            assert(entry.blocks@.skip(index as int)[0] == block);
            assert(entry.blocks@.skip(index as int).skip(1) == entry.blocks@.skip(index as int + 1));
        }
        let stored_start: u64 = match base.checked_add(block.start) {
            Some(stored_start) => stored_start,
            None => {
                return Err(PakError::Corrupt("compression block position overflow".to_owned()));
            },
        };
        let stored_end: u64 = match base.checked_add(block.end) {
            Some(stored_end) => stored_end,
            None => {
                return Err(PakError::Corrupt("compression block range overflow".to_owned()));
            },
        };
        if stored_start < payload_start || stored_end < stored_start || stored_end > payload_end {
            return Err(
                PakError::Corrupt(
                    cat3("compression block for ", path, " is outside its stored payload"),
                ),
            );
        }
        let left: u64 = entry.uncompressed_size - output_start;
        let logical_size: u64 = if left < block_size {
            left
        } else {
            block_size
        };
        let output_end: u64 = output_start + logical_size;
        if logical_size > logical_threshold || stored_end - stored_start > stored_threshold {
            requires_direct = true;
        }
        direct_blocks.push(
            DirectDecodeBlock { stored_start, stored_end, output_start, output_end },
        );
        output_start = output_end;
        index += 1;
    }
    if output_start != entry.uncompressed_size {
        return Err(
            PakError::Corrupt(
                cat5(
                    "compression blocks for ",
                    path,
                    " cover ",
                    decimal(output_start).as_str(),
                    cat2(
                        " logical bytes, expected ",
                        decimal(entry.uncompressed_size).as_str(),
                    ).as_str(),
                ),
            ),
        );
    }
    if requires_direct {
        Ok(Some(DirectDecodePlan { codec, blocks: direct_blocks }))
    } else {
        Ok(None)
    }
}

pub fn build_direct_decode_plan(
    entry: &LegacyEntryMetadata,
    physical_entry_offset: u64,
    header_size: u64,
    detected: &DetectedFooter,
    path: &str,
) -> (result: Result<Option<DirectDecodePlan>>)
    ensures
        match (
            result,
            direct_plan_of(
                entry@,
                physical_entry_offset,
                header_size,
                detected.version,
                detected@.compression_codecs,
                path@,
                DIRECT_DECODE_LOGICAL_BLOCK_THRESHOLD,
                DIRECT_DECODE_STORED_BLOCK_THRESHOLD,
            ),
        ) {
            (Ok(plan), Ok(wanted)) => plan_view(plan) == wanted,
            (Err(error), Err(wanted)) => error@ == wanted,
            _ => false,
        },
{
    build_direct_decode_plan_with_thresholds(
        entry,
        physical_entry_offset,
        header_size,
        detected,
        path,
        DIRECT_DECODE_LOGICAL_BLOCK_THRESHOLD,
        DIRECT_DECODE_STORED_BLOCK_THRESHOLD,
    )
}

/// Blocks that yield the bytes from `from` to `to`, one block behind the other, and
/// are stored between `low` and `high`.
pub open spec fn blocks_yield(blocks: Seq<DirectDecodeBlock>, from: int, to: int, low: int, high: int) -> bool {
    &&& blocks.len() == 0 ==> from == to
    &&& blocks.len() > 0 ==> blocks[0].output_start == from && blocks.last().output_end == to
    &&& forall|i: int|
        0 <= i < blocks.len() ==> low <= (#[trigger] blocks[i]).stored_start
            <= blocks[i].stored_end <= high && blocks[i].output_start <= blocks[i].output_end
    &&& forall|i: int|
        0 < i < blocks.len() ==> (#[trigger] blocks[i]).output_start == blocks[i - 1].output_end
}

proof fn next_blocks_yield(
    done: Seq<DirectDecodeBlock>,
    large: bool,
    output: int,
    rest: Seq<CompressionBlock>,
    base: int,
    payload_start: int,
    payload_end: int,
    size: int,
    block_size: int,
    logical_threshold: u64,
    stored_threshold: u64,
    path: Seq<char>,
)
    requires
        blocks_yield(done, 0, output, payload_start, payload_end),
        0 <= output <= size <= u64::MAX,
        block_size >= 0,
        base >= 0,
        payload_start >= 0,
    ensures
        direct_blocks_from(
            done,
            large,
            output,
            rest,
            base,
            payload_start,
            payload_end,
            size,
            block_size,
            logical_threshold,
            stored_threshold,
            path,
        ) matches Ok((blocks, _, end)) ==> blocks_yield(blocks, 0, end, payload_start, payload_end),
    decreases rest.len(),
{
    if rest.len() > 0 {
        let start = base + rest[0].start;
        let end = base + rest[0].end;
        if start <= u64::MAX && end <= u64::MAX && !(start < payload_start || end < start || end
            > payload_end) {
            let logical = if size - output < block_size {
                size - output
            } else {
                block_size
            };
            let block = DirectDecodeBlock {
                stored_start: start as u64,
                stored_end: end as u64,
                output_start: output as u64,
                output_end: (output + logical) as u64,
            };
            let more = done.push(block);
            assert(blocks_yield(more, 0, output + logical, payload_start, payload_end)) by {
                assert forall|i: int| 0 <= i < more.len() implies payload_start <= (
                #[trigger] more[i]).stored_start <= more[i].stored_end <= payload_end
                    && more[i].output_start <= more[i].output_end by {
                    if i < done.len() {
                        assert(more[i] == done[i]);
                    }
                }
                assert forall|i: int| 0 < i < more.len() implies (#[trigger] more[i]).output_start
                    == more[i - 1].output_end by {
                    if i < done.len() {
                        assert(more[i] == done[i] && more[i - 1] == done[i - 1]);
                    } else {
                        assert(more[i - 1] == done[i - 1]);
                        assert(done.last() == done[i - 1]);
                    }
                }
                if done.len() > 0 {
                    assert(more[0] == done[0]);
                }
            }
            next_blocks_yield(
                more,
                large || is_large(logical, end - start, logical_threshold, stored_threshold),
                output + logical,
                rest.skip(1),
                base,
                payload_start,
                payload_end,
                size,
                block_size,
                logical_threshold,
                stored_threshold,
                path,
            );
        }
    }
}

/// The blocks of a plan yield every byte of the file exactly once and in order, and
/// each of them is stored within the payload of the file.
pub proof fn plans_yield_the_whole_file(
    entry: LegacyEntryView,
    physical_offset: u64,
    header_size: u64,
    version: PakVersion,
    codecs: Seq<Option<Seq<char>>>,
    path: Seq<char>,
    logical_threshold: u64,
    stored_threshold: u64,
)
    ensures
        direct_plan_of(
            entry,
            physical_offset,
            header_size,
            version,
            codecs,
            path,
            logical_threshold,
            stored_threshold,
        ) matches Ok(Some(plan)) ==> blocks_yield(
            plan.blocks,
            0,
            entry.uncompressed_size as int,
            physical_offset + header_size,
            physical_offset + header_size + entry.compressed_size,
        ),
{
    let payload_start = physical_offset + header_size;
    let base = if version.number() >= 5 {
        physical_offset as int
    } else {
        0
    };
    next_blocks_yield(
        Seq::empty(),
        false,
        0,
        entry.blocks,
        base,
        payload_start,
        payload_start + entry.compressed_size,
        entry.uncompressed_size as int,
        entry.compression_block_size as int,
        logical_threshold,
        stored_threshold,
        path,
    );
}

} // verus!
