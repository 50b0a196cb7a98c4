//! Reading the files of an open archive.
use vstd::prelude::*;
use vstd::slice::{slice_subrange, slice_to_vec};

use super::archive::{
    LogicalValidation, OutsideReading, PakEntryDecodeInfo, PakEntryInventory, PakEntryInventoryView,
    PakInventory, PakInventoryView, DECODED_MEMORY_CACHE_ENTRY_BYTES,
};
use super::decode::CachedLogicalEntryView;
use super::entries::EntryRecordView;
use super::error::{corrupt, seen, PakError, PakErrorView, Result};
use super::footer::{check, SUPPORTED_PAK_VERSION};
use super::open::{
    beyond_end, content_of, content_views, decode_file, entry_payload_range, no_contents, opened,
    payload_range, PakArchive, PakArchiveView,
};
use super::paths::{normal_path, normalize_entry_path, normalized_sort_key, sort_key_of};
use crate::digest::sha256_digest;
use crate::ordered::{slot, slot_parts};
use crate::text::{cat3, hex_encode, hex_text, same_text, same_texts};

verus! {

/// Per-entry ceiling imposed by the address space.
pub const MAX_IN_MEMORY_ENTRY_BYTES: u64 = 18_446_744_073_709_551_615;

/// Where the file at `path` stands among the files of an archive.
pub open spec fn place_of(archive: PakArchiveView, path: Seq<char>) -> std::result::Result<
    int,
    PakErrorView,
> {
    match normal_path(path) {
        Err(error) => Err(error),
        Ok(path) => {
            let at = slot(archive.entries, sort_key_of(path));
            if at < archive.entries.len() && archive.entries[at].0 == sort_key_of(path) {
                Ok(at)
            } else {
                Err(PakErrorView::MissingEntry(path))
            }
        },
    }
}

/// The logical bytes of the file at `at`: a compressed one is decoded, another
/// one is stored as it is.
pub open spec fn file_bytes(archive: PakArchiveView, at: int) -> std::result::Result<
    Seq<u8>,
    PakErrorView,
> {
    let entry = archive.entries[at].1;
    if entry.compressed {
        match content_of(archive, at) {
            Err(error) => Err(error),
            Ok(content) => Ok(content.bytes),
        }
    } else {
        match payload_range(entry) {
            Err(error) => Err(error),
            Ok((start, end)) => if end > archive.bytes.len() {
                Err(beyond_end(entry.path))
            } else {
                Ok(archive.bytes.subrange(start as int, end as int))
            },
        }
    }
}

/// The file at `at` is as the index says: a file that is stored as it is has the
/// recorded size, and the digest that is kept of it is its digest.
pub open spec fn file_sound(archive: PakArchiveView, at: int) -> bool {
    !archive.entries[at].1.compressed ==> (file_bytes(archive, at) matches Ok(bytes) ==> bytes.len()
        == archive.entries[at].1.size && archive.entries[at].1.stored_sha256 == sha256_digest(bytes))
}

pub open spec fn files_sound(archive: PakArchiveView) -> bool {
    forall|i: int| 0 <= i < archive.entries.len() ==> #[trigger] file_sound(archive, i)
}

/// What is read of a file has the size that the index records, and the digest of the
/// file is the digest of what is read, whatever was decoded before.
pub proof fn digests_are_of_the_bytes(archive: PakArchiveView, path: Seq<char>, max_bytes: u64)
    requires
        files_sound(archive),
    ensures
        entry_bytes(archive, path, max_bytes) matches Ok(bytes) ==> {
            &&& place_of(archive, path) matches Ok(at) && bytes.len() == archive.entries[at].1.size
            &&& logical_digest(archive, path) == Ok::<Seq<char>, PakErrorView>(
                hex_text(sha256_digest(bytes)),
            )
        },
{
    match place_of(archive, path) {
        Err(_) => {},
        Ok(at) => {
            slot_parts(archive.entries, sort_key_of(path));
            assert(file_sound(archive, at));
        },
    }
}

/// The digest of the logical bytes of the file at `path`.
pub open spec fn logical_digest(archive: PakArchiveView, path: Seq<char>) -> std::result::Result<
    Seq<char>,
    PakErrorView,
> {
    match place_of(archive, path) {
        Err(error) => Err(error),
        Ok(at) => if archive.entries[at].1.compressed {
            match content_of(archive, at) {
                Err(error) => Err(error),
                Ok(content) => Ok(hex_text(content.sha256)),
            }
        } else {
            Ok(hex_text(archive.entries[at].1.stored_sha256))
        },
    }
}

/// Why a file is too large, if it is.
pub open spec fn size_fault(entry: EntryRecordView, max_bytes: u64) -> Option<PakErrorView> {
    if entry.size > max_bytes || entry.size > usize::MAX {
        Some(
            PakErrorView::EntryTooLarge {
                path: entry.path,
                size: entry.size,
                limit: if max_bytes < usize::MAX {
                    max_bytes
                } else {
                    usize::MAX as u64
                },
            },
        )
    } else {
        None
    }
}

/// The logical bytes of the file at `path`, of which there may be at most
/// `max_bytes`.
pub open spec fn entry_bytes(archive: PakArchiveView, path: Seq<char>, max_bytes: u64) -> std::result::Result<
    Seq<u8>,
    PakErrorView,
> {
    match place_of(archive, path) {
        Err(error) => Err(error),
        Ok(at) => match size_fault(archive.entries[at].1, max_bytes) {
            Some(error) => Err(error),
            None => file_bytes(archive, at),
        },
    }
}

/// As `entry_bytes`, but an empty file is not looked at.
pub open spec fn mapped_bytes(archive: PakArchiveView, path: Seq<char>, max_bytes: u64) -> std::result::Result<
    Seq<u8>,
    PakErrorView,
> {
    match place_of(archive, path) {
        Err(error) => Err(error),
        Ok(at) => match size_fault(archive.entries[at].1, max_bytes) {
            Some(error) => Err(error),
            None => if archive.entries[at].1.size == 0 {
                Ok(Seq::empty())
            } else {
                file_bytes(archive, at)
            },
        },
    }
}

proof fn keeping_files_sound(before: PakArchiveView, after: PakArchiveView)
    requires
        files_sound(before),
        after.bytes == before.bytes,
        after.entries == before.entries,
    ensures
        files_sound(after),
{
    assert forall|i: int| 0 <= i < after.entries.len() implies #[trigger] file_sound(after, i) by {
        assert(file_sound(before, i));
    }
}

/// An archive that has let go of its contents holds none.
pub proof fn nothing_is_held_without_contents(count: nat)
    ensures
        held(no_contents(count)) == 0,
    decreases count,
{
    if count > 0 {
        let rest = (count - 1) as nat;
        assert(no_contents(count).drop_last() =~= no_contents(rest));
        nothing_is_held_without_contents(rest);
    }
}

/// How many contents are there.
pub open spec fn held(contents: Seq<Option<CachedLogicalEntryView>>) -> nat
    decreases contents.len(),
{
    if contents.len() == 0 {
        0
    } else {
        held(contents.drop_last()) + if contents.last() is Some {
            1nat
        } else {
            0
        }
    }
}

/// The archive once the file at `at` was asked for: what a compressed file decodes
/// to is kept.
pub open spec fn filled(archive: PakArchiveView, at: int) -> PakArchiveView {
    match content_of(archive, at) {
        Ok(content) if archive.entries[at].1.compressed => PakArchiveView {
            contents: archive.contents.update(at, Some(content)),
            ..archive
        },
        _ => archive,
    }
}

/// The archive after the digest of the file at `path` was asked for.
pub open spec fn after_digest(archive: PakArchiveView, path: Seq<char>, cancelled: bool) -> PakArchiveView {
    match place_of(archive, path) {
        Ok(at) if !cancelled => filled(archive, at),
        _ => archive,
    }
}

/// The archive after the file at `path` was read.
pub open spec fn after_read(
    archive: PakArchiveView,
    path: Seq<char>,
    max_bytes: u64,
    cancelled: bool,
) -> PakArchiveView {
    match place_of(archive, path) {
        Ok(at) if !cancelled && size_fault(archive.entries[at].1, max_bytes) is None => filled(
            archive,
            at,
        ),
        _ => archive,
    }
}

/// The archive after the file at `path` was mapped; an empty file is not decoded.
pub open spec fn after_map(
    archive: PakArchiveView,
    path: Seq<char>,
    max_bytes: u64,
    cancelled: bool,
) -> PakArchiveView {
    match place_of(archive, path) {
        Ok(at) if archive.entries[at].1.size > 0 => after_read(
            archive,
            path,
            max_bytes,
            cancelled,
        ),
        _ => archive,
    }
}

/// The bytes of a file, where they stand or as they were decoded.
#[derive(Debug)]
pub enum PakEntryData<'b> {
    Owned(Vec<u8>),
    Shared(&'b [u8]),
    ArchiveSlice(&'b [u8]),
}

impl<'b> View for PakEntryData<'b> {
    type V = Seq<u8>;

    open spec fn view(&self) -> Seq<u8> {
        match *self {
            PakEntryData::Owned(bytes) => bytes@,
            PakEntryData::Shared(bytes) => bytes@,
            PakEntryData::ArchiveSlice(bytes) => bytes@,
        }
    }
}

/// How the bytes of the file at `path` are handed out: nothing where the file is
/// empty, the place in the archive where they are stored as they are, what is kept
/// of a file that was decoded, or else what was decoded for this one time.
pub open spec fn handed_out_as(
    data: PakEntryData,
    archive: PakArchiveView,
    path: Seq<char>,
    kept: bool,
) -> bool {
    let entry = archive.entries[place_of(archive, path)->Ok_0].1;
    if entry.size == 0 {
        data is Owned
    } else if !entry.compressed {
        data is ArchiveSlice
    } else if kept {
        data is Shared
    } else {
        data is Owned
    }
}

/// Whether what the file at `path` decodes to is kept.
pub open spec fn is_kept(archive: PakArchiveView, path: Seq<char>) -> bool {
    archive.contents[place_of(archive, path)->Ok_0] is Some
}

impl<'b> PakEntryData<'b> {
    pub fn as_ref(&self) -> (bytes: &[u8])
        ensures
            bytes@ == self@,
    {
        match self {
            PakEntryData::Owned(bytes) => bytes.as_slice(),
            PakEntryData::Shared(bytes) => bytes,
            PakEntryData::ArchiveSlice(bytes) => bytes,
        }
    }
}

impl<'a> PakArchive<'a> {
    fn find_entry(&self, path: &str) -> (result: Result<usize>)
        requires
            self.well_formed(),
        ensures
            match (result, place_of(self@, path@)) {
                (Ok(at), Ok(wanted)) => at == wanted && at < self.entries.items@.len(),
                (Err(error), Err(wanted)) => error@ == wanted,
                _ => false,
            },
    {
        let normalized = normalize_entry_path(path)?;
        let key = normalized_sort_key(normalized.as_str());
        match self.entries.find(key.as_str()) {
            Some(at) => Ok(at),
            None => {
                proof {
                    crate::ordered::slot_parts(self.entries@, key@);
                }
                Err(PakError::MissingEntry(normalized))
            },
        }
    }

    /// Opens an archive with the final, strict check of its contents. Compressed
    /// files are decoded once and kept.
    pub fn open(path: &str, archive: &'a [u8], outside: &'a OutsideReading) -> (result: Result<
        PakArchive<'a>,
    >)
        ensures
            seen(result) == opened(path@, archive@, LogicalValidation::StrictRetain, outside@),
            result matches Ok(opened) ==> opened.well_formed() && opened.bytes == archive,
    {
        Self::open_with_progress_and_cancel(path, archive, outside, false)
    }

    /// Opens an archive without decoding its compressed files. Its footer, its
    /// indexes and all stored digests are still checked.
    pub fn open_fast(path: &str, archive: &'a [u8], outside: &'a OutsideReading) -> (result: Result<
        PakArchive<'a>,
    >)
        ensures
            seen(result) == opened(path@, archive@, LogicalValidation::Deferred, outside@),
            result matches Ok(opened) ==> opened.well_formed() && opened.bytes == archive,
    {
        Self::open_fast_with_progress_and_cancel(path, archive, outside, false)
    }

    pub fn open_with_progress_and_cancel(
        path: &str,
        archive: &'a [u8],
        outside: &'a OutsideReading,
        cancelled: bool,
    ) -> (result: Result<PakArchive<'a>>)
        ensures
            seen(result) == if cancelled {
                Err(PakErrorView::Cancelled)
            } else {
                opened(path@, archive@, LogicalValidation::StrictRetain, outside@)
            },
            result matches Ok(opened) ==> opened.well_formed() && opened.bytes == archive,
    {
        Self::open_internal_with_policy(
            path,
            archive,
            LogicalValidation::StrictRetain,
            outside,
            cancelled,
        )
    }

    pub fn open_fast_with_progress_and_cancel(
        path: &str,
        archive: &'a [u8],
        outside: &'a OutsideReading,
        cancelled: bool,
    ) -> (result: Result<PakArchive<'a>>)
        ensures
            seen(result) == if cancelled {
                Err(PakErrorView::Cancelled)
            } else {
                opened(path@, archive@, LogicalValidation::Deferred, outside@)
            },
            result matches Ok(opened) ==> opened.well_formed() && opened.bytes == archive,
    {
        Self::open_internal_with_policy(
            path,
            archive,
            LogicalValidation::Deferred,
            outside,
            cancelled,
        )
    }

    pub fn inventory(&self) -> (result: &PakInventory)
        ensures
            result@ == self@.inventory,
    {
        &self.inventory
    }

    pub fn into_inventory(self) -> (result: PakInventory)
        ensures
            result@ == self@.inventory,
    {
        self.inventory
    }

    pub fn path(&self) -> (result: &str)
        ensures
            result@ == self@.inventory.source_path,
    {
        self.inventory.source_path.as_str()
    }

    pub fn contains(&self, path: &str) -> (result: bool)
        requires
            self.well_formed(),
        ensures
            result == (place_of(self@, path@) is Ok),
    {
        match self.find_entry(path) {
            Ok(_) => true,
            Err(_) => false,
        }
    }

    /// The logical size that the index records, without reading the file.
    pub fn entry_size(&self, path: &str) -> (result: Result<u64>)
        requires
            self.well_formed(),
        ensures
            seen(result) == match place_of(self@, path@) {
                Ok(at) => Ok(self@.entries[at].1.size),
                Err(error) => Err(error),
            },
    {
        let at: usize = self.find_entry(path)?;
        assert(self@.entries[at as int].1 == self.entries.items@[at as int].1@);
        Ok(self.entries.items[at].1.size)
    }

    /// What decoding the file would take, without touching its bytes.
    pub fn entry_decode_info(&self, path: &str) -> (result: Result<PakEntryDecodeInfo>)
        requires
            self.well_formed(),
        ensures
            match (result, place_of(self@, path@)) {
                (Ok(info), Ok(at)) => {
                    let entry = self@.entries[at].1;
                    info == PakEntryDecodeInfo {
                        compressed: entry.compressed,
                        logical_size: entry.size,
                        decoded_cache_present: entry.compressed && self@.contents[at] is Some,
                        memory_cache_eligible: entry.compressed && entry.direct_decode_plan is None
                            && entry.size <= DECODED_MEMORY_CACHE_ENTRY_BYTES && entry.size
                            <= usize::MAX,
                    }
                },
                (Err(error), Err(wanted)) => error@ == wanted,
                _ => false,
            },
    {
        let at: usize = self.find_entry(path)?;
        let entry = &self.entries.items[at].1;
        assert(self@.entries[at as int].1 == entry@);
        Ok(
            PakEntryDecodeInfo {
                compressed: entry.compressed,
                logical_size: entry.size,
                decoded_cache_present: entry.compressed && self.contents[at].is_some(),
                memory_cache_eligible: entry.compressed && entry.direct_decode_plan.is_none()
                    && entry.size <= DECODED_MEMORY_CACHE_ENTRY_BYTES && entry.size
                    <= usize::MAX as u64,
            },
        )
    }

    /// The SHA-256 of the logical bytes of a file, which is decoded anew where
    /// nothing is kept of it; the archive stays as it is.
    pub fn peek_sha256(&self, path: &str) -> (result: Result<String>)
        requires
            self.well_formed(),
        ensures
            seen(result) == logical_digest(self@, path@),
    {
        let at: usize = self.find_entry(path)?;
        let entry = &self.entries.items[at].1;
        assert(self@.entries[at as int].1 == entry@);
        if !entry.compressed {
            return Ok(hex_encode(entry.stored_sha256.as_slice()));
        }
        assert(self@.contents[at as int] == match self.contents@[at as int] {
            Some(content) => Some(content@),
            None => None,
        });
        match &self.contents[at] {
            Some(content) => Ok(hex_encode(content.sha256.as_slice())),
            None => {
                let content = decode_file(self.bytes, entry, self.outputs, at)?;
                Ok(hex_encode(content.sha256.as_slice()))
            },
        }
    }

    fn file_data(&self, at: usize) -> (result: Result<PakEntryData<'_>>)
        requires
            self.well_formed(),
            at < self.entries.items@.len(),
        ensures
            seen(result) == file_bytes(self@, at as int),
            result matches Ok(data) ==> if !self@.entries[at as int].1.compressed {
                data is ArchiveSlice
            } else if self@.contents[at as int] is Some {
                data is Shared
            } else {
                data is Owned
            },
    {
        let entry = &self.entries.items[at].1;
        assert(self@.entries[at as int].1 == entry@);
        if entry.compressed {
            assert(self@.contents[at as int] == match self.contents@[at as int] {
                Some(content) => Some(content@),
                None => None,
            });
            return match &self.contents[at] {
                Some(content) => Ok(PakEntryData::Shared(content.bytes.as_slice())),
                None => {
                    let content = decode_file(self.bytes, entry, self.outputs, at)?;
                    Ok(PakEntryData::Owned(content.bytes))
                },
            };
        }
        let (start, end) = entry_payload_range(entry)?;
        if end > self.bytes.len() {
            return Err(
                PakError::Corrupt(
                    cat3("file ", entry.path.as_str(), " extends beyond the end of the Pak"),
                ),
            );
        }
        Ok(PakEntryData::ArchiveSlice(slice_subrange(self.bytes, start, end)))
    }

    fn check_size(&self, at: usize, max_bytes: u64) -> (result: Result<()>)
        requires
            self.well_formed(),
            at < self.entries.items@.len(),
        ensures
            seen(result) == check(size_fault(self@.entries[at as int].1, max_bytes)),
    {
        let entry = &self.entries.items[at].1;
        assert(self@.entries[at as int].1 == entry@);
        if entry.size > max_bytes || entry.size > usize::MAX as u64 {
            return Err(
                PakError::EntryTooLarge {
                    path: entry.path.clone(),
                    size: entry.size,
                    limit: if max_bytes < usize::MAX as u64 {
                        max_bytes
                    } else {
                        usize::MAX as u64
                    },
                },
            );
        }
        Ok(())
    }

    /// The bytes of a file, which is decoded anew where nothing is kept of it; the
    /// archive stays as it is.
    pub fn peek_entry(&self, path: &str, max_bytes: u64) -> (result: Result<PakEntryData<'_>>)
        requires
            self.well_formed(),
        ensures
            seen(result) == mapped_bytes(self@, path@, max_bytes),
            result matches Ok(data) ==> handed_out_as(data, self@, path@, is_kept(self@, path@)),
    {
        let at: usize = self.find_entry(path)?;
        self.check_size(at, max_bytes)?;
        assert(self@.entries[at as int].1 == self.entries.items@[at as int].1@);
        if self.entries.items[at].1.size == 0 {
            let none = PakEntryData::Owned(Vec::new());
            assert(none@ =~= Seq::empty());
            return Ok(none);
        }
        self.file_data(at)
    }

    /// Decodes the compressed file at `at` and keeps what it decodes to, unless that
    /// is kept already.
    fn fill(&mut self, at: usize) -> (result: Result<()>)
        requires
            old(self).well_formed(),
            at < old(self).entries.items@.len(),
            old(self).entries.items@[at as int].1.compressed,
        ensures
            final(self).well_formed(),
            final(self).entries == old(self).entries,
            final(self)@ == filled(old(self)@, at as int),
            match result {
                Ok(_) => content_of(old(self)@, at as int) is Ok,
                Err(error) => content_of(old(self)@, at as int) == Err::<
                    CachedLogicalEntryView,
                    PakErrorView,
                >(error@),
            },
    {
        let ghost before = self@;
        let entry = &self.entries.items[at].1;
        proof {
            assert(before.entries[at as int].1 == entry@);
            assert(before.contents[at as int] == match self.contents@[at as int] {
                Some(content) => Some(content@),
                None => None,
            });
        }
        if self.contents[at].is_some() {
            proof {
                assert(before.contents.update(at as int, before.contents[at as int])
                    =~= before.contents);
            }
            return Ok(());
        }
        let content = decode_file(self.bytes, entry, self.outputs, at)?;
        proof {
            assert(content_views(self.contents@.update(at as int, Some(content)))
                =~= content_views(self.contents@).update(at as int, Some(content@)));
        }
        self.contents.set(at, Some(content));
        proof {
            let after = self@;
            assert(after == filled(before, at as int));
            keeping_files_sound(before, after);
            assert forall|i: int|
                0 <= i < after.contents.len() && (#[trigger] after.contents[i])
                    is Some implies after.entries[i].1.compressed && content_of(after, i) == Ok::<
                CachedLogicalEntryView,
                PakErrorView,
            >(after.contents[i]->0) by {
                if i != at {
                    assert(before.contents[i] == after.contents[i]);
                }
            }
        }
        Ok(())
    }

    /// The SHA-256 of the logical bytes of a file. A compressed file is decoded
    /// when it is first asked for, and kept.
    pub fn logical_sha256(&mut self, path: &str) -> (result: Result<String>)
        requires
            old(self).well_formed(),
        ensures
            final(self).well_formed(),
            final(self)@ == after_digest(old(self)@, path@, false),
            seen(result) == logical_digest(old(self)@, path@),
            entry_bytes(old(self)@, path@, MAX_IN_MEMORY_ENTRY_BYTES) matches Ok(bytes)
                ==> seen(result) == Ok::<Seq<char>, PakErrorView>(hex_text(sha256_digest(bytes))),
    {
        proof {
            digests_are_of_the_bytes(self@, path@, MAX_IN_MEMORY_ENTRY_BYTES);
        }
        self.logical_sha256_with_threads_and_cancel(path, false)
    }

    /// As `logical_sha256`; nothing is decoded once the work was cancelled.
    pub fn logical_sha256_with_threads_and_cancel(&mut self, path: &str, cancelled: bool) -> (result:
        Result<String>)
        requires
            old(self).well_formed(),
        ensures
            final(self).well_formed(),
            final(self)@ == after_digest(old(self)@, path@, cancelled),
            seen(result) == match place_of(old(self)@, path@) {
                Ok(at) if cancelled && old(self)@.entries[at].1.compressed => Err(
                    PakErrorView::Cancelled,
                ),
                _ => logical_digest(old(self)@, path@),
            },
    {
        let at: usize = self.find_entry(path)?;
        assert(self@.entries[at as int].1 == self.entries.items@[at as int].1@);
        if self.entries.items[at].1.compressed {
            if cancelled {
                return Err(PakError::Cancelled);
            }
            self.fill(at)?;
        }
        self.peek_sha256(path)
    }

    /// Decodes a compressed file and keeps what it decodes to; a file that was
    /// decoded before is left alone, and so is one that is not compressed.
    pub fn cached_compressed_entry(&mut self, path: &str, cancelled: bool) -> (result: Result<()>)
        requires
            old(self).well_formed(),
        ensures
            final(self).well_formed(),
            final(self)@ == after_digest(old(self)@, path@, cancelled),
            seen(result) == if cancelled {
                Err(PakErrorView::Cancelled)
            } else {
                match place_of(old(self)@, path@) {
                    Err(error) => Err(error),
                    Ok(at) => match content_of(old(self)@, at) {
                        Err(error) if old(self)@.entries[at].1.compressed => Err(error),
                        _ => Ok(()),
                    },
                }
            },
    {
        if cancelled {
            return Err(PakError::Cancelled);
        }
        let at: usize = self.find_entry(path)?;
        assert(self@.entries[at as int].1 == self.entries.items@[at as int].1@);
        if self.entries.items[at].1.compressed {
            self.fill(at)
        } else {
            Ok(())
        }
    }

    /// The bytes of a file, of which there may be at most `max_bytes`. A compressed
    /// file is decoded when it is first asked for, and kept.
    pub fn map_entry(&mut self, path: &str, max_bytes: u64) -> (result: Result<PakEntryData<'_>>)
        requires
            old(self).well_formed(),
        ensures
            final(self).well_formed(),
            final(self)@ == after_map(old(self)@, path@, max_bytes, false),
            seen(result) == mapped_bytes(old(self)@, path@, max_bytes),
            result matches Ok(data) ==> handed_out_as(data, old(self)@, path@, true),
    {
        self.map_entry_with_threads_and_cancel(path, max_bytes, false)
    }

    /// As `map_entry`, unless the work was cancelled.
    pub fn map_entry_with_threads_and_cancel(
        &mut self,
        path: &str,
        max_bytes: u64,
        cancelled: bool,
    ) -> (result: Result<PakEntryData<'_>>)
        requires
            old(self).well_formed(),
        ensures
            final(self).well_formed(),
            final(self)@ == after_map(old(self)@, path@, max_bytes, cancelled),
            seen(result) == if cancelled {
                Err(PakErrorView::Cancelled)
            } else {
                mapped_bytes(old(self)@, path@, max_bytes)
            },
            result matches Ok(data) ==> handed_out_as(data, old(self)@, path@, true),
    {
        if cancelled {
            return Err(PakError::Cancelled);
        }
        let at: usize = self.find_entry(path)?;
        self.check_size(at, max_bytes)?;
        assert(self@.entries[at as int].1 == self.entries.items@[at as int].1@);
        if self.entries.items[at].1.size > 0 && self.entries.items[at].1.compressed {
            self.fill(at)?;
        }
        self.peek_entry(path, max_bytes)
    }

    pub fn read_entry(&mut self, path: &str) -> (result: Result<Vec<u8>>)
        requires
            old(self).well_formed(),
        ensures
            final(self).well_formed(),
            final(self)@ == after_read(old(self)@, path@, MAX_IN_MEMORY_ENTRY_BYTES, false),
            seen(result) == entry_bytes(old(self)@, path@, MAX_IN_MEMORY_ENTRY_BYTES),
    {
        self.read_entry_limited(path, MAX_IN_MEMORY_ENTRY_BYTES)
    }

    pub fn read_entry_limited(&mut self, path: &str, max_bytes: u64) -> (result: Result<Vec<u8>>)
        requires
            old(self).well_formed(),
        ensures
            final(self).well_formed(),
            final(self)@ == after_read(old(self)@, path@, max_bytes, false),
            seen(result) == entry_bytes(old(self)@, path@, max_bytes),
    {
        self.read_entry_limited_with_threads_and_cancel(path, max_bytes, false)
    }

    /// As `read_entry_limited`; a file that is too large is refused before it is
    /// asked whether the work was cancelled.
    pub fn read_entry_limited_with_threads_and_cancel(
        &mut self,
        path: &str,
        max_bytes: u64,
        cancelled: bool,
    ) -> (result: Result<Vec<u8>>)
        requires
            old(self).well_formed(),
        ensures
            final(self).well_formed(),
            final(self)@ == after_read(old(self)@, path@, max_bytes, cancelled),
            seen(result) == match place_of(old(self)@, path@) {
                Ok(at) if cancelled && size_fault(old(self)@.entries[at].1, max_bytes) is None => Err(
                    PakErrorView::Cancelled,
                ),
                _ => entry_bytes(old(self)@, path@, max_bytes),
            },
    {
        let at: usize = self.find_entry(path)?;
        self.check_size(at, max_bytes)?;
        if cancelled {
            return Err(PakError::Cancelled);
        }
        let mut output: Vec<u8> = Vec::new();
        self.append_file(at, &mut output)?;
        assert(Seq::<u8>::empty() + output@ =~= output@);
        Ok(output)
    }

    /// Appends the bytes of a file, and says how many the index records. A
    /// compressed file is decoded when it is first asked for, and kept.
    pub fn read_entry_to(&mut self, path: &str, output: &mut Vec<u8>) -> (result: Result<u64>)
        requires
            old(self).well_formed(),
        ensures
            final(self).well_formed(),
            final(self)@ == after_digest(old(self)@, path@, false),
            match place_of(old(self)@, path@) {
                Err(error) => final(output)@ == old(output)@ && seen(result) == Err::<u64, PakErrorView>(
                    error,
                ),
                Ok(at) => match file_bytes(old(self)@, at) {
                    Err(error) => final(output)@ == old(output)@ && seen(result) == Err::<
                        u64,
                        PakErrorView,
                    >(error),
                    Ok(bytes) => final(output)@ == old(output)@ + bytes && seen(result) == Ok::<
                        u64,
                        PakErrorView,
                    >(old(self)@.entries[at].1.size),
                },
            },
    {
        self.read_entry_to_with_threads_and_cancel(path, output, false)
    }

    /// As `read_entry_to`, unless the work was cancelled.
    pub fn read_entry_to_with_threads_and_cancel(
        &mut self,
        path: &str,
        output: &mut Vec<u8>,
        cancelled: bool,
    ) -> (result: Result<u64>)
        requires
            old(self).well_formed(),
        ensures
            final(self).well_formed(),
            final(self)@ == after_digest(old(self)@, path@, cancelled),
            if cancelled {
                final(output)@ == old(output)@ && seen(result) == Err::<u64, PakErrorView>(
                    PakErrorView::Cancelled,
                )
            } else {
                match place_of(old(self)@, path@) {
                    Err(error) => final(output)@ == old(output)@ && seen(result) == Err::<
                        u64,
                        PakErrorView,
                    >(error),
                    Ok(at) => match file_bytes(old(self)@, at) {
                        Err(error) => final(output)@ == old(output)@ && seen(result) == Err::<
                            u64,
                            PakErrorView,
                        >(error),
                        Ok(bytes) => final(output)@ == old(output)@ + bytes && seen(result) == Ok::<
                            u64,
                            PakErrorView,
                        >(old(self)@.entries[at].1.size),
                    },
                }
            },
    {
        if cancelled {
            return Err(PakError::Cancelled);
        }
        let at: usize = self.find_entry(path)?;
        self.append_file(at, output)?;
        assert(self@.entries[at as int].1 == self.entries.items@[at as int].1@);
        Ok(self.entries.items[at].1.size)
    }

    fn append_file(&mut self, at: usize, output: &mut Vec<u8>) -> (result: Result<()>)
        requires
            old(self).well_formed(),
            at < old(self).entries.items@.len(),
        ensures
            final(self).well_formed(),
            final(self).entries == old(self).entries,
            final(self)@ == filled(old(self)@, at as int),
            match (result, file_bytes(old(self)@, at as int)) {
                (Ok(_), Ok(bytes)) => final(output)@ == old(output)@ + bytes,
                (Err(error), Err(wanted)) => final(output)@ == old(output)@ && error@ == wanted,
                _ => false,
            },
    {
        assert(self@.entries[at as int].1 == self.entries.items@[at as int].1@);
        if self.entries.items[at].1.compressed {
            self.fill(at)?;
        }
        let data = self.file_data(at)?;
        let mut more = slice_to_vec(data.as_ref());
        output.append(&mut more);
        Ok(())
    }

    /// Lets go of the decoded contents and says how many there were.
    pub fn release_decoded_cache(&mut self) -> (released: usize)
        requires
            old(self).well_formed(),
        ensures
            final(self).well_formed(),
            released == held(old(self)@.contents),
            final(self)@ == (PakArchiveView {
                contents: no_contents(old(self)@.contents.len()),
                ..old(self)@
            }),
    {
        let mut released: usize = 0;
        let mut at: usize = 0;
        let ghost before = self@.contents;
        while at < self.contents.len()
            invariant
                at <= self.contents@.len(),
                self.contents@.len() == before.len(),
                self.entries == old(self).entries,
                self.bytes == old(self).bytes,
                self.inventory == old(self).inventory,
                self.outputs == old(self).outputs,
                before == old(self)@.contents,
                released <= at,
                released == held(before.take(at as int)),
                forall|i: int| 0 <= i < at ==> #[trigger] self.contents@[i] is None,
                forall|i: int|
                    at <= i < before.len() ==> #[trigger] content_views(self.contents@)[i] == before[i],
            decreases self.contents.len() - at,
        {
            proof {
                assert(before.take(at as int + 1).drop_last() =~= before.take(at as int));
                assert(content_views(self.contents@)[at as int] == before[at as int]);
            }
            if self.contents[at].is_some() {
                released += 1;
            }
            let ghost sooner = self.contents@;
            self.contents.set(at, None);
            proof {
                assert forall|i: int| at + 1 <= i < before.len() implies #[trigger] content_views(
                    self.contents@,
                )[i] == before[i] by {
                    assert(content_views(sooner)[i] == before[i]);
                }
            }
            at += 1;
        }
        proof {
            assert(before.take(at as int) =~= before);
            assert(content_views(self.contents@) =~= no_contents(before.len()));
            keeping_files_sound(old(self)@, self@);
        }
        released
    }
}

pub open spec fn inspected(path: Seq<char>, archive: Seq<u8>, outside: super::archive::OutsideReadingView) -> std::result::Result<
    PakInventoryView,
    PakErrorView,
> {
    match opened(path, archive, LogicalValidation::StrictDiscard, outside) {
        Ok(archive) => Ok(archive.inventory),
        Err(error) => Err(error),
    }
}

/// A complete inspection; the contents of compressed files are checked and let
/// go.
pub fn inspect_pak(path: &str, archive: &[u8], outside: &OutsideReading) -> (result: Result<PakInventory>)
    ensures
        seen(result) == inspected(path@, archive@, outside@),
{
    let opened = PakArchive::open_internal_with_policy(
        path,
        archive,
        LogicalValidation::StrictDiscard,
        outside,
        false,
    )?;
    Ok(opened.into_inventory())
}

pub fn inspect(path: &str, archive: &[u8], outside: &OutsideReading) -> (result: Result<PakInventory>)
    ensures
        seen(result) == inspected(path@, archive@, outside@),
{
    inspect_pak(path, archive, outside)
}

/// What must agree between the records of one file in two inventories.
pub open spec fn same_file(left: PakEntryInventoryView, right: PakEntryInventoryView) -> bool {
    &&& left.path == right.path
    &&& left.size == right.size
    &&& left.stored_size == right.stored_size
    &&& left.compressed == right.compressed
    &&& left.sha256 == right.sha256
}

pub open spec fn same_files(left: Seq<PakEntryInventoryView>, right: Seq<PakEntryInventoryView>) -> bool {
    left.len() == right.len() && forall|i: int|
        0 <= i < left.len() ==> same_file(#[trigger] left[i], right[i])
}

/// An output has the files, the base folder and the codecs that it must have.
pub open spec fn same_contents(expected: PakInventoryView, actual: PakInventoryView) -> bool {
    &&& expected.mount_point == actual.mount_point
    &&& expected.footer.compression_slots == actual.footer.compression_slots
    &&& same_files(expected.entries, actual.entries)
}

fn files_agree(left: &Vec<PakEntryInventory>, right: &Vec<PakEntryInventory>) -> (result: bool)
    ensures
        result == same_files(
            super::archive::inventory_views(left@),
            super::archive::inventory_views(right@),
        ),
{
    let ghost a = super::archive::inventory_views(left@);
    let ghost b = super::archive::inventory_views(right@);
    if left.len() != right.len() {
        return false;
    }
    let mut at: usize = 0;
    while at < left.len()
        invariant
            at <= left@.len(),
            left@.len() == right@.len(),
            a == super::archive::inventory_views(left@),
            b == super::archive::inventory_views(right@),
            forall|i: int| 0 <= i < at ==> same_file(#[trigger] a[i], b[i]),
        decreases left.len() - at,
    {
        let first = &left[at];
        let second = &right[at];
        proof {
            assert(a[at as int] == first@);
            assert(b[at as int] == second@);
        }
        if !same_text(first.path.as_str(), second.path.as_str()) || first.size != second.size
            || first.stored_size != second.stored_size || first.compressed != second.compressed
            || !same_text(first.sha256.as_str(), second.sha256.as_str()) {
            return false;
        }
        at += 1;
    }
    true
}

/// Inspects a produced archive and compares it with what it must be.
pub open spec fn verified_output(
    path: Seq<char>,
    archive: Seq<u8>,
    outside: super::archive::OutsideReadingView,
    expected: Option<PakInventoryView>,
) -> std::result::Result<PakInventoryView, PakErrorView> {
    match inspected(path, archive, outside) {
        Err(error) => Err(error),
        Ok(actual) => if actual.footer.version != SUPPORTED_PAK_VERSION {
            Err(PakErrorView::UnsupportedVersion { actual: actual.footer.version })
        } else {
            match expected {
                Some(expected) if !same_contents(expected, actual) => corrupt(
                    "output inventory differs from the expected inventory"@,
                ),
                _ => Ok(actual),
            }
        },
    }
}

pub fn verify_pak_v11(
    path: &str,
    archive: &[u8],
    outside: &OutsideReading,
    expected: Option<&PakInventory>,
) -> (result: Result<PakInventory>)
    ensures
        seen(result) == verified_output(
            path@,
            archive@,
            outside@,
            match expected {
                Some(expected) => Some(expected@),
                None => None,
            },
        ),
{
    let actual = inspect_pak(path, archive, outside)?;
    if actual.footer.version != SUPPORTED_PAK_VERSION {
        return Err(PakError::UnsupportedVersion { actual: actual.footer.version });
    }
    match expected {
        Some(expected) => {
            if !same_text(expected.mount_point.as_str(), actual.mount_point.as_str())
                || !same_texts(
                &expected.footer.compression_slots,
                &actual.footer.compression_slots,
            ) || !files_agree(&expected.entries, &actual.entries) {
                return Err(
                    PakError::Corrupt(
                        "output inventory differs from the expected inventory".to_owned(),
                    ),
                );
            }
        },
        None => {},
    }
    Ok(actual)
}

} // verus!
