//! A validated archive: its inventory and the bytes of its files.
use vstd::prelude::*;
use vstd::slice::slice_subrange;

use super::decode::{
    archive_error, map_repak_error, DecoderOutput, DecoderOutputView, RepakError, RepakErrorView,
};
use super::entries::{Entries, EntryRecord, EntryRecordView, ParsedIndexes, ParsedIndexesView};
use super::error::{corrupt, seen, PakError, PakErrorView, Result};
use super::footer::{check, PakFooterInfo, PakFooterInfoView, PakVersion};
use super::paths::{PackageGrouping, PackageGroupingView};
use crate::digest::{sha1_digest, sha1_of, sha256_digest, sha256_of};
use crate::ordered::{same_text_sets, OrderedMap};
use crate::text::{cat3, hex_encode, hex_text, same_text, texts, texts_push};

verus! {

/// Small decoded files stay in memory.
pub const DECODED_MEMORY_CACHE_ENTRY_BYTES: u64 = 67_108_864;

pub const MAX_STALE_HASH_UASSET_BYTES: u64 = 67_108_864;

/// How far the contents of compressed files are checked when an archive is
/// opened.
#[derive(Debug, Clone, Copy, PartialEq, Eq, Structural)]
pub enum LogicalValidation {
    Deferred,
    StrictRetain,
    StrictDiscard,
}

impl LogicalValidation {
    pub open spec fn strict(self) -> bool {
        self != LogicalValidation::Deferred
    }

    pub fn is_strict(self) -> (result: bool)
        ensures
            result == self.strict(),
    {
        self != LogicalValidation::Deferred
    }

    pub fn retains_decoded_entries(self) -> (result: bool)
        ensures
            result == (self == LogicalValidation::StrictRetain),
    {
        self == LogicalValidation::StrictRetain
    }
}

#[derive(Debug, Clone, PartialEq, Eq)]
pub struct PakEntryInventory {
    pub path: String,
    /// Logical size after decompression.
    pub size: u64,
    /// Number of payload bytes stored in the archive.
    pub stored_size: u64,
    pub compressed: bool,
    /// The digest of the logical bytes, or of the stored bytes where a
    /// compressed file was not decoded.
    pub sha256: String,
    pub sha256_is_logical: bool,
    pub header_offset: u64,
    /// SHA-1 of the payload bytes that were read.
    pub payload_sha1: String,
    /// SHA-1 that the archive records.
    pub stored_payload_sha1: String,
    /// False only for the audited legacy `.uexp` profile.
    pub payload_sha1_matches: bool,
}

#[verifier::ext_equal]
pub struct PakEntryInventoryView {
    pub path: Seq<char>,
    pub size: u64,
    pub stored_size: u64,
    pub compressed: bool,
    pub sha256: Seq<char>,
    pub sha256_is_logical: bool,
    pub header_offset: u64,
    pub payload_sha1: Seq<char>,
    pub stored_payload_sha1: Seq<char>,
    pub payload_sha1_matches: bool,
}

impl View for PakEntryInventory {
    type V = PakEntryInventoryView;

    open spec fn view(&self) -> PakEntryInventoryView {
        PakEntryInventoryView {
            path: self.path@,
            size: self.size,
            stored_size: self.stored_size,
            compressed: self.compressed,
            sha256: self.sha256@,
            sha256_is_logical: self.sha256_is_logical,
            header_offset: self.header_offset,
            payload_sha1: self.payload_sha1@,
            stored_payload_sha1: self.stored_payload_sha1@,
            payload_sha1_matches: self.payload_sha1_matches,
        }
    }
}

#[derive(Debug, Clone, PartialEq, Eq)]
pub struct PakInventory {
    pub source_path: String,
    pub archive_size: u64,
    pub archive_sha256: String,
    pub footer: PakFooterInfo,
    pub mount_point: String,
    pub path_hash_seed: u64,
    pub entries: Vec<PakEntryInventory>,
    pub packages: PackageGrouping,
}

#[verifier::ext_equal]
pub struct PakInventoryView {
    pub source_path: Seq<char>,
    pub archive_size: u64,
    pub archive_sha256: Seq<char>,
    pub footer: PakFooterInfoView,
    pub mount_point: Seq<char>,
    pub path_hash_seed: u64,
    pub entries: Seq<PakEntryInventoryView>,
    pub packages: PackageGroupingView,
}

pub open spec fn inventory_views(entries: Seq<PakEntryInventory>) -> Seq<PakEntryInventoryView> {
    entries.map_values(|entry: PakEntryInventory| entry@)
}

impl View for PakInventory {
    type V = PakInventoryView;

    open spec fn view(&self) -> PakInventoryView {
        PakInventoryView {
            source_path: self.source_path@,
            archive_size: self.archive_size,
            archive_sha256: self.archive_sha256@,
            footer: self.footer@,
            mount_point: self.mount_point@,
            path_hash_seed: self.path_hash_seed,
            entries: inventory_views(self.entries@),
            packages: self.packages@,
        }
    }
}

/// What is known of the cost of decoding a file, without reading it.
#[derive(Debug, Clone, Copy, PartialEq, Eq, Structural)]
pub struct PakEntryDecodeInfo {
    pub compressed: bool,
    pub logical_size: u64,
    pub decoded_cache_present: bool,
    pub memory_cache_eligible: bool,
}

/// What a second, independently maintained reader found in the same archive.
#[derive(Debug)]
pub struct SecondReading {
    pub version: PakVersion,
    pub encrypted_index: bool,
    pub mount_point: String,
    pub path_hash_seed: Option<u64>,
    pub files: Vec<String>,
}

#[verifier::ext_equal]
pub struct SecondReadingView {
    pub version: PakVersion,
    pub encrypted_index: bool,
    pub mount_point: Seq<char>,
    pub path_hash_seed: Option<u64>,
    pub files: Seq<Seq<char>>,
}

impl View for SecondReading {
    type V = SecondReadingView;

    open spec fn view(&self) -> SecondReadingView {
        SecondReadingView {
            version: self.version,
            encrypted_index: self.encrypted_index,
            mount_point: self.mount_point@,
            path_hash_seed: self.path_hash_seed,
            files: texts(self.files@),
        }
    }
}

/// What is learnt of an archive outside this library while it is opened.
#[derive(Debug)]
pub struct OutsideReading {
    /// Why the Oodle runtime could not be prepared, if it could not.
    pub oodle_failure: Option<String>,
    /// What the second reader found.
    pub reader: std::result::Result<SecondReading, RepakError>,
    /// The largest `.uexp` file that can hold a binary asset.
    pub maximum_uexp_bytes: u64,
    /// The package tag of each file, in the order of the keys, where its bytes
    /// have the structure of a binary asset.
    pub uexp_tags: Vec<Option<Vec<u8>>>,
    /// What the decoders made of each file, in the order of the keys.
    pub outputs: Vec<DecoderOutput>,
}

#[verifier::ext_equal]
pub struct OutsideReadingView {
    pub oodle_failure: Option<Seq<char>>,
    pub reader: std::result::Result<SecondReadingView, RepakErrorView>,
    pub maximum_uexp_bytes: u64,
    pub uexp_tags: Seq<Option<Seq<u8>>>,
    pub outputs: Seq<DecoderOutputView>,
}

pub open spec fn output_views(outputs: Seq<DecoderOutput>) -> Seq<DecoderOutputView> {
    outputs.map_values(|output: DecoderOutput| output@)
}

impl View for OutsideReading {
    type V = OutsideReadingView;

    open spec fn view(&self) -> OutsideReadingView {
        OutsideReadingView {
            oodle_failure: crate::text::text_view(self.oodle_failure),
            reader: match self.reader {
                Ok(reading) => Ok(reading@),
                Err(error) => Err(error@),
            },
            maximum_uexp_bytes: self.maximum_uexp_bytes,
            uexp_tags: super::decode::block_views(self.uexp_tags@),
            outputs: output_views(self.outputs@),
        }
    }
}

/// The paths of files in the order of their keys.
pub open spec fn paths_of(entries: Entries) -> Seq<Seq<char>> {
    entries.map_values(|item: (Seq<char>, EntryRecordView)| item.1.path)
}

pub fn list_entry_paths(entries: &OrderedMap<EntryRecord>) -> (result: Vec<String>)
    ensures
        texts(result@) == paths_of(entries@),
{
    let mut result: Vec<String> = Vec::new();
    let mut at: usize = 0;
    while at < entries.items.len()
        invariant
            at <= entries.items@.len(),
            texts(result@) == paths_of(entries@).take(at as int),
        decreases entries.items.len() - at,
    {
        let path = entries.items[at].1.path.clone();
        proof {
            texts_push(result@, path);
            assert(paths_of(entries@).take(at as int + 1) =~= paths_of(entries@).take(at as int).push(
                path@,
            ));
        }
        result.push(path);
        at += 1;
    }
    assert(paths_of(entries@).take(at as int) =~= paths_of(entries@));
    result
}

/// The first file that needs Oodle.
pub open spec fn first_oodle(entries: Entries) -> Option<Seq<char>>
    decreases entries.len(),
{
    if entries.len() == 0 {
        None
    } else if entries[0].1.oodle_compressed {
        Some(entries[0].1.path)
    } else {
        first_oodle(entries.skip(1))
    }
}

fn find_oodle(entries: &OrderedMap<EntryRecord>) -> (result: Option<String>)
    ensures
        crate::text::text_view(result) == first_oodle(entries@),
{
    let mut at: usize = 0;
    proof {
        assert(entries@.skip(0) == entries@);
    }
    while at < entries.items.len()
        invariant
            at <= entries.items@.len(),
            first_oodle(entries@) == first_oodle(entries@.skip(at as int)),
        decreases entries.items.len() - at,
    {
        proof {
            assert(entries@.skip(at as int)[0] == (entries.items@[at as int].0@, entries.items@[at as int].1@));
            assert(entries@.skip(at as int).skip(1) == entries@.skip(at as int + 1));
        }
        if entries.items[at].1.oodle_compressed {
            return Some(entries.items[at].1.path.clone());
        }
        at += 1;
    }
    None
}

/// Where the two readers disagree.
pub open spec fn disagreement_of(
    version: PakVersion,
    parsed: ParsedIndexesView,
    reading: SecondReadingView,
) -> Option<PakErrorView> {
    let seed = match reading.path_hash_seed {
        Some(seed) => seed,
        None => 0,
    };
    if reading.version != version {
        Some(PakErrorView::UnsupportedVersion { actual: reading.version.number() as u32 })
    } else if reading.encrypted_index {
        Some(PakErrorView::EncryptedIndex)
    } else if reading.mount_point != parsed.mount_point {
        Some(
            PakErrorView::Corrupt("the two Pak readers disagree about the Pak's base folder"@),
        )
    } else if seed != parsed.path_hash_seed {
        Some(PakErrorView::Corrupt("repak and strict parser disagree on path hash seed"@))
    } else if reading.files.to_set() != paths_of(parsed.entries).to_set() {
        Some(
            PakErrorView::Corrupt("the two Pak readers disagree about the files inside the Pak"@),
        )
    } else {
        None
    }
}

/// Why the outside readers do not confirm what was parsed.
pub open spec fn outside_fault(
    version: PakVersion,
    parsed: ParsedIndexesView,
    outside: OutsideReadingView,
) -> Option<PakErrorView> {
    match (first_oodle(parsed.entries), outside.oodle_failure) {
        (Some(path), Some(reason)) => Some(PakErrorView::OodleUnavailable { path, reason }),
        _ => match outside.reader {
            Err(error) => Some(archive_error(error)),
            Ok(reading) => disagreement_of(version, parsed, reading),
        },
    }
}

pub fn confirm_outside_reading(
    version: PakVersion,
    parsed: &ParsedIndexes,
    outside: &OutsideReading,
) -> (result: Result<()>)
    ensures
        seen(result) == check(outside_fault(version, parsed@, outside@)),
{
    match find_oodle(&parsed.entries) {
        Some(path) => match &outside.oodle_failure {
            Some(reason) => {
                return Err(PakError::OodleUnavailable { path, reason: reason.clone() });
            },
            None => {},
        },
        None => {},
    }
    let reading = match &outside.reader {
        Ok(reading) => reading,
        Err(error) => {
            return Err(map_repak_error(error));
        },
    };
    if reading.version != version {
        return Err(
            PakError::UnsupportedVersion { actual: reading.version.version_major() },
        );
    }
    if reading.encrypted_index {
        return Err(PakError::EncryptedIndex);
    }
    if !same_text(reading.mount_point.as_str(), parsed.mount_point.as_str()) {
        return Err(
            PakError::Corrupt(
                "the two Pak readers disagree about the Pak's base folder".to_owned(),
            ),
        );
    }
    let seed: u64 = match reading.path_hash_seed {
        Some(seed) => seed,
        None => 0,
    };
    if seed != parsed.path_hash_seed {
        return Err(
            PakError::Corrupt("repak and strict parser disagree on path hash seed".to_owned()),
        );
    }
    let strict = list_entry_paths(&parsed.entries);
    if !same_text_sets(&reading.files, &strict) {
        return Err(
            PakError::Corrupt(
                "the two Pak readers disagree about the files inside the Pak".to_owned(),
            ),
        );
    }
    Ok(())
}

/// The first compressed file that the address space cannot hold.
pub open spec fn oversize_fault(entries: Entries) -> Option<PakErrorView>
    decreases entries.len(),
{
    if entries.len() == 0 {
        None
    } else {
        let entry = entries[0].1;
        if entry.compressed && (entry.stored_size > usize::MAX || entry.size > usize::MAX) {
            Some(
                PakErrorView::EntryTooLarge {
                    path: entry.path,
                    size: if entry.stored_size > entry.size {
                        entry.stored_size
                    } else {
                        entry.size
                    },
                    limit: usize::MAX as u64,
                },
            )
        } else {
            oversize_fault(entries.skip(1))
        }
    }
}

/// How many logical bytes the compressed files have together.
pub open spec fn compressed_total(entries: Entries) -> int
    decreases entries.len(),
{
    if entries.len() == 0 {
        0
    } else {
        compressed_total(entries.drop_last()) + if entries.last().1.compressed {
            entries.last().1.size as int
        } else {
            0
        }
    }
}

/// How many bytes are worked through while an archive is opened.
pub open spec fn work_of(archive_size: u64, entries: Entries, validation: LogicalValidation) -> std::result::Result<
    u64,
    PakErrorView,
> {
    match oversize_fault(entries) {
        Some(error) => Err(error),
        None => if compressed_total(entries) > u64::MAX {
            corrupt("compressed file sizes overflow"@)
        } else if !validation.strict() {
            Ok(archive_size)
        } else if archive_size + compressed_total(entries) > u64::MAX {
            corrupt("verification size overflow"@)
        } else {
            Ok((archive_size + compressed_total(entries)) as u64)
        },
    }
}

proof fn compressed_total_grows(entries: Entries, count: int)
    requires
        0 <= count <= entries.len(),
    ensures
        0 <= compressed_total(entries.take(count)) <= compressed_total(entries),
    decreases entries.len() - count,
{
    if count < entries.len() {
        compressed_total_grows(entries, count + 1);
        assert(entries.take(count + 1).drop_last() =~= entries.take(count));
    } else {
        assert(entries.take(count) =~= entries);
    }
    compressed_total_positive(entries.take(count));
}

proof fn compressed_total_positive(entries: Entries)
    ensures
        0 <= compressed_total(entries),
    decreases entries.len(),
{
    if entries.len() > 0 {
        compressed_total_positive(entries.drop_last());
    }
}

fn check_sizes(entries: &OrderedMap<EntryRecord>) -> (result: Result<()>)
    ensures
        seen(result) == check(oversize_fault(entries@)),
{
    let mut at: usize = 0;
    proof {
        assert(entries@.skip(0) == entries@);
    }
    while at < entries.items.len()
        invariant
            at <= entries.items@.len(),
            oversize_fault(entries@) == oversize_fault(entries@.skip(at as int)),
        decreases entries.items.len() - at,
    {
        let entry = &entries.items[at].1;
        proof {
            assert(entries@.skip(at as int)[0] == (entries.items@[at as int].0@, entries.items@[at as int].1@));
            assert(entries@.skip(at as int).skip(1) == entries@.skip(at as int + 1));
        }
        if entry.compressed && (entry.stored_size > usize::MAX as u64 || entry.size
            > usize::MAX as u64) {
            return Err(
                PakError::EntryTooLarge {
                    path: entry.path.clone(),
                    size: if entry.stored_size > entry.size {
                        entry.stored_size
                    } else {
                        entry.size
                    },
                    limit: usize::MAX as u64,
                },
            );
        }
        at += 1;
    }
    Ok(())
}

pub fn total_work_bytes(
    archive_size: u64,
    entries: &OrderedMap<EntryRecord>,
    validation: LogicalValidation,
) -> (result: Result<u64>)
    ensures
        seen(result) == work_of(archive_size, entries@, validation),
{
    check_sizes(entries)?;
    let mut total: u64 = 0;
    let mut at: usize = 0;
    while at < entries.items.len()
        invariant
            at <= entries.items@.len(),
            total == compressed_total(entries@.take(at as int)),
            oversize_fault(entries@) is None,
        decreases entries.items.len() - at,
    {
        let entry = &entries.items[at].1;
        proof {
            assert(entries@.take(at as int + 1).drop_last() =~= entries@.take(at as int));
            assert(entries@.take(at as int + 1).last() == (
                entries.items@[at as int].0@,
                entries.items@[at as int].1@,
            ));
            compressed_total_grows(entries@, at as int + 1);
        }
        if entry.compressed {
            total = match total.checked_add(entry.size) {
                Some(total) => total,
                None => {
                    return Err(PakError::Corrupt("compressed file sizes overflow".to_owned()));
                },
            };
        }
        at += 1;
    }
    assert(entries@.take(at as int) =~= entries@);
    if validation.is_strict() {
        match archive_size.checked_add(total) {
            Some(work) => Ok(work),
            None => Err(PakError::Corrupt("verification size overflow".to_owned())),
        }
    } else {
        Ok(archive_size)
    }
}

/// The digests of the stored bytes of one file.
#[derive(Debug)]
pub struct PayloadHash {
    pub sha1: Vec<u8>,
    pub sha256: Vec<u8>,
}

#[verifier::ext_equal]
pub struct PayloadHashView {
    pub sha1: Seq<u8>,
    pub sha256: Seq<u8>,
}

impl View for PayloadHash {
    type V = PayloadHashView;

    open spec fn view(&self) -> PayloadHashView {
        PayloadHashView { sha1: self.sha1@, sha256: self.sha256@ }
    }
}

pub open spec fn hash_views(hashes: Seq<PayloadHash>) -> Seq<PayloadHashView> {
    hashes.map_values(|hash: PayloadHash| hash@)
}

/// The stored bytes of a file.
pub open spec fn payload_of(archive: Seq<u8>, entry: EntryRecordView) -> Seq<u8> {
    let start = entry.header_offset + entry.header_size;
    archive.subrange(start, start + entry.stored_size)
}

/// Why the stored bytes of a file cannot be in the archive.
pub open spec fn payload_fault(archive_len: int, entry: EntryRecordView) -> Option<PakErrorView> {
    let start = entry.header_offset + entry.header_size;
    if start > u64::MAX {
        Some(PakErrorView::Corrupt("file contents position overflow"@))
    } else if start + entry.stored_size > u64::MAX {
        Some(PakErrorView::Corrupt("file contents range overflow"@))
    } else if start + entry.stored_size > archive_len {
        Some(
            PakErrorView::Corrupt(
                "file "@ + entry.path + " extends beyond the end of the Pak"@,
            ),
        )
    } else {
        None
    }
}

/// The digests of the rest of the files, in the order of their keys.
pub open spec fn hashes_from(
    done: Seq<PayloadHashView>,
    archive: Seq<u8>,
    rest: Entries,
) -> std::result::Result<Seq<PayloadHashView>, PakErrorView>
    decreases rest.len(),
{
    if rest.len() == 0 {
        Ok(done)
    } else {
        match payload_fault(archive.len() as int, rest[0].1) {
            Some(error) => Err(error),
            None => {
                let payload = payload_of(archive, rest[0].1);
                hashes_from(
                    done.push(
                        PayloadHashView {
                            sha1: sha1_digest(payload),
                            sha256: sha256_digest(payload),
                        },
                    ),
                    archive,
                    rest.skip(1),
                )
            },
        }
    }
}

fn payload_slice<'a>(archive: &'a [u8], entry: &EntryRecord) -> (result: Result<&'a [u8]>)
    ensures
        match (result, payload_fault(archive@.len() as int, entry@)) {
            (Ok(bytes), None) => bytes@ == payload_of(archive@, entry@),
            (Err(error), Some(wanted)) => error@ == wanted,
            _ => false,
        },
{
    let start: u64 = match entry.header_offset.checked_add(entry.header_size) {
        Some(start) => start,
        None => {
            return Err(PakError::Corrupt("file contents position overflow".to_owned()));
        },
    };
    let end: u64 = match start.checked_add(entry.stored_size) {
        Some(end) => end,
        None => {
            return Err(PakError::Corrupt("file contents range overflow".to_owned()));
        },
    };
    if end > archive.len() as u64 {
        return Err(
            PakError::Corrupt(
                cat3("file ", entry.path.as_str(), " extends beyond the end of the Pak"),
            ),
        );
    }
    Ok(slice_subrange(archive, start as usize, end as usize))
}

pub fn hash_archive_and_entry_payloads(archive: &[u8], entries: &OrderedMap<EntryRecord>) -> (result:
    Result<(String, Vec<PayloadHash>)>)
    ensures
        match (result, hashes_from(Seq::empty(), archive@, entries@)) {
            (Ok((digest, hashes)), Ok(wanted)) => digest@ == hex_text(sha256_digest(archive@))
                && hash_views(hashes@) == wanted,
            (Err(error), Err(wanted)) => error@ == wanted,
            _ => false,
        },
{
    let mut hashes: Vec<PayloadHash> = Vec::new();
    let mut at: usize = 0;
    proof {
        assert(entries@.skip(0) == entries@);
        assert(hash_views(hashes@) =~= Seq::empty());
    }
    while at < entries.items.len()
        invariant
            at <= entries.items@.len(),
            hashes_from(Seq::empty(), archive@, entries@) == hashes_from(
                hash_views(hashes@),
                archive@,
                entries@.skip(at as int),
            ),
        decreases entries.items.len() - at,
    {
        proof {
            assert(entries@.skip(at as int)[0] == (entries.items@[at as int].0@, entries.items@[at as int].1@));
            assert(entries@.skip(at as int).skip(1) == entries@.skip(at as int + 1));
        }
        let payload = payload_slice(archive, &entries.items[at].1)?;
        let hash = PayloadHash { sha1: sha1_of(payload), sha256: sha256_of(payload) };
        proof {
            assert(hash_views(hashes@.push(hash)) =~= hash_views(hashes@).push(hash@));
        }
        hashes.push(hash);
        at += 1;
    }
    Ok((hex_encode(sha256_of(archive).as_slice()), hashes))
}

} // verus!
