//! The logical bytes of compressed files.
use vstd::prelude::*;
use vstd::slice::{slice_subrange, slice_to_vec};

use super::blocks::{DirectDecodeBlock, DirectDecodeCodec, DirectDecodePlan, DirectDecodePlanView};
use super::entries::{EntryRecord, EntryRecordView};
use super::error::{corrupt, seen, PakError, PakErrorView, Result};
use crate::digest::{sha256_digest, sha256_of};
use crate::text::{cat2, cat3, cat4, cat5, dec, decimal, decimal_usize};

verus! {

/// How the archive reader that decodes and encodes for this library failed.
#[derive(Debug)]
pub enum RepakError {
    Encryption,
    Encrypted,
    Compression,
    Oodle,
    OodleFailed(String),
    DecompressionFailed(String),
    MissingEntry(String),
    /// Any other failure, by its message.
    Other(String),
}

#[verifier::ext_equal]
pub enum RepakErrorView {
    Encryption,
    Encrypted,
    Compression,
    Oodle,
    OodleFailed(Seq<char>),
    DecompressionFailed(Seq<char>),
    MissingEntry(Seq<char>),
    Other(Seq<char>),
}

impl View for RepakError {
    type V = RepakErrorView;

    open spec fn view(&self) -> RepakErrorView {
        match *self {
            RepakError::Encryption => RepakErrorView::Encryption,
            RepakError::Encrypted => RepakErrorView::Encrypted,
            RepakError::Compression => RepakErrorView::Compression,
            RepakError::Oodle => RepakErrorView::Oodle,
            RepakError::OodleFailed(text) => RepakErrorView::OodleFailed(text@),
            RepakError::DecompressionFailed(text) => RepakErrorView::DecompressionFailed(text@),
            RepakError::MissingEntry(text) => RepakErrorView::MissingEntry(text@),
            RepakError::Other(text) => RepakErrorView::Other(text@),
        }
    }
}

/// The error of an archive whose reader failed.
pub open spec fn archive_error(error: RepakErrorView) -> PakErrorView {
    let path = "<unknown>"@;
    match error {
        RepakErrorView::Encryption | RepakErrorView::Encrypted => PakErrorView::EncryptedIndex,
        RepakErrorView::Compression => PakErrorView::UnsupportedCompression {
            path,
            method: "compressed data"@,
        },
        RepakErrorView::Oodle => PakErrorView::UnsupportedCompression { path, method: "Oodle"@ },
        RepakErrorView::OodleFailed(reason) => PakErrorView::OodleUnavailable { path, reason },
        RepakErrorView::DecompressionFailed(text) => PakErrorView::Repak(text),
        RepakErrorView::MissingEntry(text) => PakErrorView::Repak(text),
        RepakErrorView::Other(text) => PakErrorView::Repak(text),
    }
}

/// The error of one file whose reader failed.
pub open spec fn entry_error(error: RepakErrorView, path: Seq<char>) -> PakErrorView {
    match error {
        RepakErrorView::Encryption | RepakErrorView::Encrypted => PakErrorView::EncryptedEntry {
            path,
        },
        RepakErrorView::Compression => PakErrorView::UnsupportedCompression {
            path,
            method: "compressed data"@,
        },
        RepakErrorView::Oodle => PakErrorView::UnsupportedCompression { path, method: "Oodle"@ },
        RepakErrorView::OodleFailed(reason) => PakErrorView::OodleUnavailable { path, reason },
        RepakErrorView::DecompressionFailed(reason) => PakErrorView::DecompressionFailed {
            path,
            reason,
        },
        RepakErrorView::MissingEntry(_) => PakErrorView::MissingEntry(path),
        RepakErrorView::Other(reason) => PakErrorView::DecompressionFailed { path, reason },
    }
}

pub fn map_repak_error(error: &RepakError) -> (result: PakError)
    ensures
        result@ == archive_error(error@),
{
    match error {
        RepakError::Encryption => PakError::EncryptedIndex,
        RepakError::Encrypted => PakError::EncryptedIndex,
        RepakError::Compression => PakError::UnsupportedCompression {
            path: "<unknown>".to_owned(),
            method: "compressed data".to_owned(),
        },
        RepakError::Oodle => PakError::UnsupportedCompression {
            path: "<unknown>".to_owned(),
            method: "Oodle".to_owned(),
        },
        RepakError::OodleFailed(reason) => PakError::OodleUnavailable {
            path: "<unknown>".to_owned(),
            reason: reason.clone(),
        },
        RepakError::DecompressionFailed(text) => PakError::Repak(text.clone()),
        RepakError::MissingEntry(text) => PakError::Repak(text.clone()),
        RepakError::Other(text) => PakError::Repak(text.clone()),
    }
}

pub fn map_repak_entry_error(error: &RepakError, path: &str) -> (result: PakError)
    ensures
        result@ == entry_error(error@, path@),
{
    match error {
        RepakError::Encryption => PakError::EncryptedEntry { path: path.to_owned() },
        RepakError::Encrypted => PakError::EncryptedEntry { path: path.to_owned() },
        RepakError::Compression => PakError::UnsupportedCompression {
            path: path.to_owned(),
            method: "compressed data".to_owned(),
        },
        RepakError::Oodle => PakError::UnsupportedCompression {
            path: path.to_owned(),
            method: "Oodle".to_owned(),
        },
        RepakError::OodleFailed(reason) => PakError::OodleUnavailable {
            path: path.to_owned(),
            reason: reason.clone(),
        },
        RepakError::DecompressionFailed(reason) => PakError::DecompressionFailed {
            path: path.to_owned(),
            reason: reason.clone(),
        },
        RepakError::MissingEntry(_) => PakError::MissingEntry(path.to_owned()),
        RepakError::Other(reason) => PakError::DecompressionFailed {
            path: path.to_owned(),
            reason: reason.clone(),
        },
    }
}

/// What `lz4_flex::block::decompress_into` makes of a block where the output
/// has room for `room` bytes: the bytes that it wrote, or the message of its
/// error.
pub uninterp spec fn lz4_output(stored: Seq<u8>, room: nat) -> std::result::Result<
    Seq<u8>,
    Seq<char>,
>;

pub open spec fn outcome_view(outcome: std::result::Result<Vec<u8>, String>) -> std::result::Result<
    Seq<u8>,
    Seq<char>,
> {
    match outcome {
        Ok(bytes) => Ok(bytes@),
        Err(text) => Err(text@),
    }
}

/// `lz4_flex::block::decompress_into` on an output of `room` bytes: what it
/// writes depends on the block and the room alone.
#[verifier::external_body]
pub(crate) fn lz4_decompress(stored: &[u8], room: usize) -> (outcome: std::result::Result<
    Vec<u8>,
    String,
>)
    requires
        room <= isize::MAX,
    ensures
        outcome_view(outcome) == lz4_output(stored@, room as nat),
{
    let mut output = vec![0u8; room];
    match lz4_flex::block::decompress_into(stored, &mut output) {
        Ok(written) => {
            output.truncate(written);
            Ok(output)
        },
        Err(error) => Err(error.to_string()),
    }
}

/// How much room the disk keeps at least beside the decoded copy of a file.
pub const MINIMUM_DECODE_DISK_HEADROOM_BYTES: u64 = 67_108_864;

/// How much room the disk must keep beside the decoded copy of a file: a twentieth
/// of its size, and never less than `minimum`.
pub fn decode_disk_headroom(size: u64, minimum: u64) -> (result: u64)
    ensures
        result == if size / 20 > minimum {
            size / 20
        } else {
            minimum
        },
{
    if size / 20 > minimum {
        size / 20
    } else {
        minimum
    }
}

/// The logical bytes of a file, as a decoder hands them over piece by piece.
/// No more than the declared size is taken.
#[derive(Debug)]
pub struct LogicalEntryWriter {
    pub bytes: Vec<u8>,
    pub expected: u64,
}

/// What one more piece does: it is refused when the file would grow beyond its
/// declared size.
pub open spec fn piece_fault(written: int, piece: int, expected: u64) -> Option<Seq<char>> {
    if written + piece > u64::MAX {
        Some("decoded file size overflow"@)
    } else if written + piece > expected {
        Some("decoded file is larger than its declared size"@)
    } else {
        None
    }
}

/// The decoded bytes of a file of `expected` bytes and their digest.
pub open spec fn complete(bytes: Seq<u8>, expected: u64) -> std::result::Result<
    CachedLogicalEntryView,
    PakErrorView,
> {
    if bytes.len() != expected {
        corrupt(
            "decoded file size is "@ + dec(bytes.len()) + " bytes, expected "@ + dec(
                expected as nat,
            ),
        )
    } else {
        Ok(CachedLogicalEntryView { bytes, sha256: sha256_digest(bytes) })
    }
}

impl LogicalEntryWriter {
    pub fn new_cancellable(expected: u64) -> (writer: Self)
        ensures
            writer.bytes@ == Seq::<u8>::empty(),
            writer.expected == expected,
    {
        LogicalEntryWriter { bytes: Vec::new(), expected }
    }

    pub fn write(&mut self, buffer: &[u8], cancelled: bool) -> (result: std::result::Result<
        usize,
        String,
    >)
        ensures
            final(self).expected == old(self).expected,
            match result {
                Ok(count) => !cancelled && piece_fault(
                    old(self).bytes@.len() as int,
                    buffer@.len() as int,
                    old(self).expected,
                ) is None && count == buffer@.len() && final(self).bytes@ == old(self).bytes@
                    + buffer@,
                Err(text) => final(self).bytes@ == old(self).bytes@ && (if cancelled {
                    text@ == "operation cancelled"@
                } else {
                    piece_fault(
                        old(self).bytes@.len() as int,
                        buffer@.len() as int,
                        old(self).expected,
                    ) == Some(text@)
                }),
            },
    {
        if cancelled {
            return Err("operation cancelled".to_owned());
        }
        let written: u64 = self.bytes.len() as u64;
        let next: u64 = match written.checked_add(buffer.len() as u64) {
            Some(next) => next,
            None => {
                return Err("decoded file size overflow".to_owned());
            },
        };
        if next > self.expected {
            return Err("decoded file is larger than its declared size".to_owned());
        }
        let mut piece = slice_to_vec(buffer);
        self.bytes.append(&mut piece);
        Ok(buffer.len())
    }

    pub fn finish(self) -> (result: Result<CachedLogicalEntry>)
        ensures
            seen(result) == complete(self.bytes@, self.expected),
    {
        if self.bytes.len() as u64 != self.expected {
            return Err(
                PakError::Corrupt(
                    cat4(
                        "decoded file size is ",
                        decimal_usize(self.bytes.len()).as_str(),
                        " bytes, expected ",
                        decimal(self.expected).as_str(),
                    ),
                ),
            );
        }
        let sha256 = sha256_of(self.bytes.as_slice());
        Ok(CachedLogicalEntry { bytes: self.bytes, sha256 })
    }
}

/// The logical bytes of a compressed file.
#[derive(Debug)]
pub struct CachedLogicalEntry {
    pub bytes: Vec<u8>,
    pub sha256: Vec<u8>,
}

#[verifier::ext_equal]
pub struct CachedLogicalEntryView {
    pub bytes: Seq<u8>,
    pub sha256: Seq<u8>,
}

impl View for CachedLogicalEntry {
    type V = CachedLogicalEntryView;

    open spec fn view(&self) -> CachedLogicalEntryView {
        CachedLogicalEntryView { bytes: self.bytes@, sha256: self.sha256@ }
    }
}

/// What the decoders outside this library made of one compressed file.
#[derive(Debug)]
pub struct DecoderOutput {
    /// The pieces that the archive reader decoded.
    pub reader: std::result::Result<Vec<Vec<u8>>, RepakError>,
    /// The blocks of a direct plan that the Oodle runtime decoded, where it
    /// could be loaded; nothing for a block that it could not decode.
    pub oodle: std::result::Result<Vec<Option<Vec<u8>>>, String>,
}

#[verifier::ext_equal]
pub struct DecoderOutputView {
    pub reader: std::result::Result<Seq<Seq<u8>>, RepakErrorView>,
    pub oodle: std::result::Result<Seq<Option<Seq<u8>>>, Seq<char>>,
}

pub open spec fn piece_views(pieces: Seq<Vec<u8>>) -> Seq<Seq<u8>> {
    pieces.map_values(|piece: Vec<u8>| piece@)
}

pub open spec fn block_views(blocks: Seq<Option<Vec<u8>>>) -> Seq<Option<Seq<u8>>> {
    blocks.map_values(
        |block: Option<Vec<u8>>|
            match block {
                Some(bytes) => Some(bytes@),
                None => None,
            },
    )
}

impl View for DecoderOutput {
    type V = DecoderOutputView;

    open spec fn view(&self) -> DecoderOutputView {
        DecoderOutputView {
            reader: match self.reader {
                Ok(pieces) => Ok(piece_views(pieces@)),
                Err(error) => Err(error@),
            },
            oodle: match self.oodle {
                Ok(blocks) => Ok(block_views(blocks@)),
                Err(text) => Err(text@),
            },
        }
    }
}

/// The bytes of the pieces, as long as each of them fits.
pub open spec fn gathered(
    done: Seq<u8>,
    rest: Seq<Seq<u8>>,
    expected: u64,
    path: Seq<char>,
) -> std::result::Result<Seq<u8>, PakErrorView>
    decreases rest.len(),
{
    if rest.len() == 0 {
        Ok(done)
    } else {
        match piece_fault(done.len() as int, rest[0].len() as int, expected) {
            Some(reason) => Err(entry_error(RepakErrorView::Other(reason), path)),
            None => gathered(done + rest[0], rest.skip(1), expected, path),
        }
    }
}

pub open spec fn codec_text(codec: DirectDecodeCodec) -> Seq<char> {
    match codec {
        DirectDecodeCodec::Lz4 => "LZ4"@,
        DirectDecodeCodec::Oodle => "Oodle"@,
    }
}

pub open spec fn not_decoded<W>(path: Seq<char>, reason: Seq<char>) -> std::result::Result<
    W,
    PakErrorView,
> {
    Err(PakErrorView::DecompressionFailed { path, reason })
}

/// The bytes of one block of a direct plan.
pub open spec fn direct_block(
    archive: Seq<u8>,
    codec: DirectDecodeCodec,
    block: DirectDecodeBlock,
    index: int,
    oodle: Seq<Option<Seq<u8>>>,
    size: u64,
    path: Seq<char>,
) -> std::result::Result<Seq<u8>, PakErrorView> {
    let room = block.output_end - block.output_start;
    if block.stored_end > archive.len() || block.stored_start > block.stored_end {
        corrupt("compressed block for "@ + path + " extends beyond the end of the Pak"@)
    } else if room < 0 || block.output_end > size {
        corrupt("logical block for "@ + path + " extends beyond its declared size"@)
    } else if room > isize::MAX {
        Err(PakErrorView::EntryAllocationFailed { path, size: room as u64 })
    } else {
        let stored = archive.subrange(block.stored_start as int, block.stored_end as int);
        let outcome = match codec {
            DirectDecodeCodec::Lz4 => match lz4_output(stored, room as nat) {
                Ok(bytes) => Ok(bytes),
                Err(text) => not_decoded(path, "LZ4 block could not be decoded: "@ + text),
            },
            DirectDecodeCodec::Oodle => if 0 <= index < oodle.len() {
                match oodle[index] {
                    Some(bytes) => Ok(bytes),
                    None => not_decoded(path, "Oodle returned a negative decoded size"@),
                }
            } else {
                not_decoded(path, "Oodle returned a negative decoded size"@)
            },
        };
        match outcome {
            Err(error) => Err(error),
            Ok(bytes) => if bytes.len() != room {
                not_decoded(
                    path,
                    codec_text(codec) + " produced "@ + dec(bytes.len()) + " bytes, expected "@
                        + dec(room as nat),
                )
            } else {
                Ok(bytes)
            },
        }
    }
}

/// The bytes of the rest of the blocks of a direct plan.
pub open spec fn direct_bytes(
    done: Seq<u8>,
    archive: Seq<u8>,
    plan: DirectDecodePlanView,
    index: int,
    oodle: Seq<Option<Seq<u8>>>,
    size: u64,
    path: Seq<char>,
) -> std::result::Result<Seq<u8>, PakErrorView>
    decreases plan.blocks.len() - index,
{
    if index >= plan.blocks.len() {
        Ok(done)
    } else {
        match direct_block(archive, plan.codec, plan.blocks[index], index, oodle, size, path) {
            Err(error) => Err(error),
            Ok(bytes) => direct_bytes(done + bytes, archive, plan, index + 1, oodle, size, path),
        }
    }
}

/// The logical bytes of a compressed file: by its direct plan where it has one,
/// else from the pieces of the archive reader.
pub open spec fn decoded(
    archive: Seq<u8>,
    entry: EntryRecordView,
    output: DecoderOutputView,
) -> std::result::Result<CachedLogicalEntryView, PakErrorView> {
    match entry.direct_decode_plan {
        Some(plan) => {
            let oodle = match plan.codec {
                DirectDecodeCodec::Lz4 => Ok(Seq::empty()),
                DirectDecodeCodec::Oodle => output.oodle,
            };
            if entry.size > usize::MAX {
                Err(
                    PakErrorView::EntryTooLarge {
                        path: entry.path,
                        size: entry.size,
                        limit: usize::MAX as u64,
                    },
                )
            } else if entry.size == 0 {
                corrupt("compressed file "@ + entry.path + " declares an empty logical payload"@)
            } else {match oodle {
                Err(reason) => Err(
                    PakErrorView::OodleUnavailable { path: entry.path, reason },
                ),
                Ok(blocks) => match direct_bytes(
                    Seq::empty(),
                    archive,
                    plan,
                    0,
                    blocks,
                    entry.size,
                    entry.path,
                ) {
                    Err(error) => Err(error),
                    Ok(bytes) => complete(bytes, entry.size),
                },
            }}
        },
        None => match output.reader {
            Err(error) => Err(entry_error(error, entry.path)),
            Ok(pieces) => match gathered(Seq::empty(), pieces, entry.size, entry.path) {
                Err(error) => Err(error),
                Ok(bytes) => complete(bytes, entry.size),
            },
        },
    }
}

fn decode_direct_block(
    archive: &[u8],
    codec: DirectDecodeCodec,
    block: DirectDecodeBlock,
    index: usize,
    oodle: &Vec<Option<Vec<u8>>>,
    size: u64,
    path: &str,
) -> (result: Result<Vec<u8>>)
    ensures
        seen(result) == direct_block(
            archive@,
            codec,
            block,
            index as int,
            block_views(oodle@),
            size,
            path@,
        ),
{
    let total: usize = archive.len();
    if block.stored_end > total as u64 || block.stored_start > block.stored_end {
        return Err(
            PakError::Corrupt(
                cat3("compressed block for ", path, " extends beyond the end of the Pak"),
            ),
        );
    }
    if block.output_end < block.output_start || block.output_end > size {
        return Err(
            PakError::Corrupt(
                cat3("logical block for ", path, " extends beyond its declared size"),
            ),
        );
    }
    if block.output_end - block.output_start > isize::MAX as u64 {
        return Err(
            PakError::EntryAllocationFailed {
                path: path.to_owned(),
                size: block.output_end - block.output_start,
            },
        );
    }
    let room: usize = (block.output_end - block.output_start) as usize;
    let stored = slice_subrange(archive, block.stored_start as usize, block.stored_end as usize);
    let bytes = match codec {
        DirectDecodeCodec::Lz4 => match lz4_decompress(stored, room) {
            Ok(bytes) => bytes,
            Err(text) => {
                return Err(
                    PakError::DecompressionFailed {
                        path: path.to_owned(),
                        reason: cat2("LZ4 block could not be decoded: ", text.as_str()),
                    },
                );
            },
        },
        DirectDecodeCodec::Oodle => {
            let block_bytes: Option<Vec<u8>> = if index < oodle.len() {
                proof {
                    assert(block_views(oodle@)[index as int] == match oodle@[index as int] {
                        Some(bytes) => Some(bytes@),
                        None => None,
                    });
                }
                match &oodle[index] {
                    Some(bytes) => Some(slice_to_vec(bytes.as_slice())),
                    None => None,
                }
            } else {
                None
            };
            match block_bytes {
                Some(bytes) => bytes,
                None => {
                    return Err(
                        PakError::DecompressionFailed {
                            path: path.to_owned(),
                            reason: "Oodle returned a negative decoded size".to_owned(),
                        },
                    );
                },
            }
        },
    };
    if bytes.len() != room {
        let name = match codec {
            DirectDecodeCodec::Lz4 => "LZ4",
            DirectDecodeCodec::Oodle => "Oodle",
        };
        return Err(
            PakError::DecompressionFailed {
                path: path.to_owned(),
                reason: cat5(
                    name,
                    " produced ",
                    decimal_usize(bytes.len()).as_str(),
                    " bytes, expected ",
                    decimal_usize(room).as_str(),
                ),
            },
        );
    }
    Ok(bytes)
}

fn decode_direct(
    archive: &[u8],
    plan: &DirectDecodePlan,
    oodle: &Vec<Option<Vec<u8>>>,
    size: u64,
    path: &str,
) -> (result: Result<Vec<u8>>)
    ensures
        seen(result) == direct_bytes(
            Seq::empty(),
            archive@,
            plan@,
            0,
            block_views(oodle@),
            size,
            path@,
        ),
{
    let mut output: Vec<u8> = Vec::new();
    let mut index: usize = 0;
    while index < plan.blocks.len()
        invariant
            index <= plan.blocks@.len(),
            direct_bytes(Seq::empty(), archive@, plan@, 0, block_views(oodle@), size, path@)
                == direct_bytes(
                output@,
                archive@,
                plan@,
                index as int,
                block_views(oodle@),
                size,
                path@,
            ),
        decreases plan.blocks.len() - index,
    {
        let mut bytes = decode_direct_block(
            archive,
            plan.codec,
            plan.blocks[index],
            index,
            oodle,
            size,
            path,
        )?;
        output.append(&mut bytes);
        index += 1;
    }
    Ok(output)
}

fn gather(pieces: &Vec<Vec<u8>>, expected: u64, path: &str) -> (result: Result<LogicalEntryWriter>)
    ensures
        match (result, gathered(Seq::empty(), piece_views(pieces@), expected, path@)) {
            (Ok(writer), Ok(bytes)) => writer.bytes@ == bytes && writer.expected == expected,
            (Err(error), Err(wanted)) => error@ == wanted,
            _ => false,
        },
{
    let mut writer = LogicalEntryWriter::new_cancellable(expected);
    let mut at: usize = 0;
    let ghost all = piece_views(pieces@);
    proof {
        assert(all.skip(0) == all);
    }
    while at < pieces.len()
        invariant
            at <= pieces@.len(),
            all == piece_views(pieces@),
            writer.expected == expected,
            gathered(Seq::empty(), all, expected, path@) == gathered(
                writer.bytes@,
                all.skip(at as int),
                expected,
                path@,
            ),
        decreases pieces.len() - at,
    {
        proof {
            assert(all.skip(at as int)[0] == pieces@[at as int]@);
            assert(all.skip(at as int).skip(1) == all.skip(at as int + 1));
        }
        match writer.write(pieces[at].as_slice(), false) {
            Ok(_) => {},
            Err(reason) => {
                return Err(map_repak_entry_error(&RepakError::Other(reason), path));
            },
        }
        at += 1;
    }
    Ok(writer)
}

/// Decodes a compressed file; a call that was cancelled before it began does
/// nothing.
pub fn decode_entry_with_progress(
    archive: &[u8],
    entry: &EntryRecord,
    output: &DecoderOutput,
    cancelled: bool,
) -> (result: Result<CachedLogicalEntry>)
    ensures
        seen(result) == if cancelled {
            Err(PakErrorView::Cancelled)
        } else {
            decoded(archive@, entry@, output@)
        },
{
    if cancelled {
        return Err(PakError::Cancelled);
    }
    match &entry.direct_decode_plan {
        Some(plan) => {
            if entry.size > usize::MAX as u64 {
                return Err(
                    PakError::EntryTooLarge {
                        path: entry.path.clone(),
                        size: entry.size,
                        limit: usize::MAX as u64,
                    },
                );
            }
            if entry.size == 0 {
                return Err(
                    PakError::Corrupt(
                        cat3(
                            "compressed file ",
                            entry.path.as_str(),
                            " declares an empty logical payload",
                        ),
                    ),
                );
            }
            let bytes = match plan.codec {
                DirectDecodeCodec::Lz4 => {
                    let none: Vec<Option<Vec<u8>>> = Vec::new();
                    proof {
                        assert(block_views(none@) =~= Seq::empty());
                    }
                    decode_direct(archive, plan, &none, entry.size, entry.path.as_str())?
                },
                DirectDecodeCodec::Oodle => match &output.oodle {
                    Ok(blocks) => decode_direct(archive, plan, blocks, entry.size, entry.path.as_str())?,
                    Err(reason) => {
                        return Err(
                            PakError::OodleUnavailable {
                                path: entry.path.clone(),
                                reason: reason.clone(),
                            },
                        );
                    },
                },
            };
            let writer = LogicalEntryWriter { bytes, expected: entry.size };
            writer.finish()
        },
        None => match &output.reader {
            Err(error) => Err(map_repak_entry_error(error, entry.path.as_str())),
            Ok(pieces) => {
                let writer = gather(pieces, entry.size, entry.path.as_str())?;
                writer.finish()
            },
        },
    }
}

} // verus!
