//! Opening an archive.
use vstd::prelude::*;
use vstd::slice::{slice_subrange, slice_to_vec};

use super::access::files_sound;
use super::archive::{
    confirm_outside_reading, hash_archive_and_entry_payloads, hash_views, hashes_from,
    inventory_views, list_entry_paths, outside_fault, output_views, paths_of, total_work_bytes,
    work_of, LogicalValidation, OutsideReading, OutsideReadingView, PakEntryInventory,
    PakEntryInventoryView, PakInventory, PakInventoryView, PayloadHash, PayloadHashView,
    MAX_STALE_HASH_UASSET_BYTES,
};
use super::decode::{
    decode_entry_with_progress, decoded, CachedLogicalEntry, CachedLogicalEntryView, DecoderOutput,
    DecoderOutputView, RepakError, RepakErrorView,
};
use super::entries::{
    indexes_of, parse_and_validate_indexes, Entries, EntryRecord, EntryRecordView,
};
use super::error::{corrupt, seen, PakError, PakErrorView, Result};
use super::footer::{
    check, detected_footer, read_footer, PakFooterInfoView, PakVersion, MIN_PAK_FOOTER_SIZE,
};
use super::layout::opened_files_are_sound;
use super::paths::{group_packages, grouped, normalized_sort_key, sort_key_of};
use crate::digest::{same_bytes, sha1_digest, sha256_digest};
use crate::ordered::{slot, OrderedMap};
use crate::text::{
    ascii_lowercase, cat2, cat3, chars_of, ends_with, hex_encode, hex_text, text_ends_with,
    text_take, to_ascii_lowercase,
};

verus! {

/// The range of the bytes of a file that is stored as it is.
pub open spec fn payload_range(entry: EntryRecordView) -> std::result::Result<
    (usize, usize),
    PakErrorView,
> {
    let start = entry.header_offset + entry.header_size;
    let end = start + entry.size;
    if start > u64::MAX {
        corrupt("file contents position overflow"@)
    } else if end > u64::MAX {
        corrupt("file contents range overflow"@)
    } else if start > usize::MAX {
        corrupt("file contents position is too large"@)
    } else if end > usize::MAX {
        corrupt("file contents end is too large"@)
    } else {
        Ok((start as usize, end as usize))
    }
}

pub fn entry_payload_range(entry: &EntryRecord) -> (result: Result<(usize, usize)>)
    ensures
        match (result, payload_range(entry@)) {
            (Ok(range), Ok(wanted)) => range == wanted && range.0 <= range.1,
            (Err(error), Err(wanted)) => error@ == wanted,
            _ => false,
        },
{
    let start: u64 = match entry.header_offset.checked_add(entry.header_size) {
        Some(start) => start,
        None => {
            return Err(PakError::Corrupt("file contents position overflow".to_owned()));
        },
    };
    let end: u64 = match start.checked_add(entry.size) {
        Some(end) => end,
        None => {
            return Err(PakError::Corrupt("file contents range overflow".to_owned()));
        },
    };
    if start > usize::MAX as u64 {
        return Err(PakError::Corrupt("file contents position is too large".to_owned()));
    }
    if end > usize::MAX as u64 {
        return Err(PakError::Corrupt("file contents end is too large".to_owned()));
    }
    Ok((start as usize, end as usize))
}

pub open spec fn beyond_end(path: Seq<char>) -> PakErrorView {
    PakErrorView::Corrupt("file "@ + path + " extends beyond the end of the Pak"@)
}

/// The bytes of a file of at most `maximum` bytes that is stored as it is.
pub open spec fn plain_payload(archive: Seq<u8>, entry: EntryRecordView, maximum: u64) -> std::result::Result<
    Option<Seq<u8>>,
    PakErrorView,
> {
    if entry.compressed || entry.size > maximum || entry.size > usize::MAX {
        Ok(None)
    } else {
        match payload_range(entry) {
            Err(error) => Err(error),
            Ok((start, end)) => if end > archive.len() {
                Err(beyond_end(entry.path))
            } else {
                Ok(Some(archive.subrange(start as int, end as int)))
            },
        }
    }
}

pub fn read_entry_payload_slice<'a>(archive: &'a [u8], entry: &EntryRecord, maximum_size: u64) -> (result:
    Result<Option<&'a [u8]>>)
    ensures
        match (result, plain_payload(archive@, entry@, maximum_size)) {
            (Ok(Some(bytes)), Ok(Some(wanted))) => bytes@ == wanted,
            (Ok(None), Ok(None)) => true,
            (Err(error), Err(wanted)) => error@ == wanted,
            _ => false,
        },
{
    if entry.compressed || entry.size > maximum_size || entry.size > usize::MAX as u64 {
        return Ok(None);
    }
    let (start, end) = entry_payload_range(entry)?;
    if end > archive.len() {
        return Err(
            PakError::Corrupt(
                cat3("file ", entry.path.as_str(), " extends beyond the end of the Pak"),
            ),
        );
    }
    Ok(Some(slice_subrange(archive, start, end)))
}

/// The package tag of Unreal files.
pub open spec fn package_tag() -> Seq<u8> {
    seq![0xC1u8, 0x83u8, 0x2Au8, 0x9Eu8]
}

fn is_package_tag(bytes: &[u8]) -> (result: bool)
    ensures
        result == (bytes@ == package_tag()),
{
    if bytes.len() == 4 && bytes[0] == 0xC1 && bytes[1] == 0x83 && bytes[2] == 0x2A && bytes[3]
        == 0x9E {
        assert(bytes@ =~= package_tag());
        true
    } else {
        false
    }
}

/// The key of the `.uasset` file that belongs to a `.uexp` file.
pub open spec fn companion_key(path: Seq<char>) -> Option<Seq<char>> {
    let lower = ascii_lowercase(path);
    if ends_with(lower, ".uexp"@) {
        Some(sort_key_of(lower.take(lower.len() - ".uexp"@.len()) + ".uasset"@))
    } else {
        None
    }
}

fn companion_key_of(path: &str) -> (result: Option<String>)
    ensures
        crate::text::text_view(result) == companion_key(path@),
{
    let lower = to_ascii_lowercase(path);
    if !text_ends_with(lower.as_str(), ".uexp") {
        return None;
    }
    proof {
        reveal_strlit(".uexp");
    }
    let count: usize = chars_of(lower.as_str()).len();
    let stem = text_take(lower.as_str(), count - 5);
    Some(normalized_sort_key(cat2(stem.as_str(), ".uasset").as_str()))
}

/// Whether a wrong digest of the file at `at` is accepted: a legacy `.uexp`
/// file that is stored as it is, has the structure of a binary asset, and
/// stands beside a `.uasset` file with the digest it must have and the same
/// package tag.
pub open spec fn stale_accepted(
    archive: Seq<u8>,
    entries: Entries,
    hashes: Seq<PayloadHashView>,
    at: int,
    tag: Option<Seq<u8>>,
    maximum_uexp_bytes: u64,
) -> std::result::Result<bool, PakErrorView> {
    let entry = entries[at].1;
    match companion_key(entry.path) {
        None => Ok(false),
        Some(key) => {
            let place = slot(entries, key);
            if entry.compressed || place >= entries.len() || entries[place].0 != key {
                Ok(false)
            } else {
                let companion = entries[place].1;
                if hashes[place].sha1 != companion.stored_payload_sha1 {
                    Ok(false)
                } else {
                    match plain_payload(archive, entry, maximum_uexp_bytes) {
                        Err(error) => Err(error),
                        Ok(None) => Ok(false),
                        Ok(Some(_)) => match plain_payload(
                            archive,
                            companion,
                            MAX_STALE_HASH_UASSET_BYTES,
                        ) {
                            Err(error) => Err(error),
                            Ok(None) => Ok(false),
                            Ok(Some(uasset)) => Ok(
                                tag == Some(package_tag()) && uasset.len() >= 4 && uasset.take(4)
                                    == package_tag(),
                            ),
                        },
                    }
                }
            }
        },
    }
}

pub fn validate_v3_stale_binary_asset_uexp(
    archive: &[u8],
    entries: &OrderedMap<EntryRecord>,
    payload_hashes: &Vec<PayloadHash>,
    at: usize,
    tag: &Option<Vec<u8>>,
    maximum_uexp_bytes: u64,
) -> (result: Result<bool>)
    requires
        entries.well_formed(),
        at < entries.items@.len(),
        payload_hashes@.len() == entries.items@.len(),
    ensures
        seen(result) == stale_accepted(
            archive@,
            entries@,
            hash_views(payload_hashes@),
            at as int,
            match *tag {
                Some(bytes) => Some(bytes@),
                None => None,
            },
            maximum_uexp_bytes,
        ),
{
    let entry = &entries.items[at].1;
    proof {
        assert(entries@[at as int].1 == entry@);
    }
    let key = match companion_key_of(entry.path.as_str()) {
        Some(key) => key,
        None => {
            return Ok(false);
        },
    };
    if entry.compressed {
        return Ok(false);
    }
    let place: usize = match entries.find(key.as_str()) {
        Some(place) => place,
        None => {
            return Ok(false);
        },
    };
    let companion = &entries.items[place].1;
    proof {
        assert(entries@[place as int].1 == companion@);
        assert(hash_views(payload_hashes@)[place as int] == payload_hashes@[place as int]@);
    }
    if !same_bytes(
        payload_hashes[place].sha1.as_slice(),
        companion.stored_payload_sha1.as_slice(),
    ) {
        return Ok(false);
    }
    if read_entry_payload_slice(archive, entry, maximum_uexp_bytes)?.is_none() {
        return Ok(false);
    }
    let uasset = match read_entry_payload_slice(archive, companion, MAX_STALE_HASH_UASSET_BYTES)? {
        Some(uasset) => uasset,
        None => {
            return Ok(false);
        },
    };
    let tagged = match tag {
        Some(bytes) => is_package_tag(bytes.as_slice()),
        None => false,
    };
    if !tagged || uasset.len() < 4 {
        return Ok(false);
    }
    let head = slice_subrange(uasset, 0, 4);
    assert(head@ == uasset@.take(4));
    Ok(is_package_tag(head))
}

pub open spec fn tag_at(tags: Seq<Option<Seq<u8>>>, at: int) -> Option<Seq<u8>> {
    if 0 <= at < tags.len() {
        tags[at]
    } else {
        None
    }
}

/// The first file from `at` on whose stored bytes have a digest that is
/// neither the recorded one nor accepted as stale.
pub open spec fn digest_fault_from(
    archive: Seq<u8>,
    version: PakVersion,
    entries: Entries,
    hashes: Seq<PayloadHashView>,
    at: int,
    tags: Seq<Option<Seq<u8>>>,
    maximum_uexp_bytes: u64,
) -> Option<PakErrorView>
    decreases entries.len() - at,
{
    if at >= entries.len() {
        None
    } else {
        let entry = entries[at].1;
        let mismatch = PakErrorView::Sha1Mismatch {
            region: "file "@ + entry.path,
            expected: hex_text(entry.payload_sha1),
            actual: hex_text(hashes[at].sha1),
        };
        let next = digest_fault_from(
            archive,
            version,
            entries,
            hashes,
            at + 1,
            tags,
            maximum_uexp_bytes,
        );
        if hashes[at].sha1 == entry.payload_sha1 {
            next
        } else if version != PakVersion::V3 {
            Some(mismatch)
        } else {
            match stale_accepted(
                archive,
                entries,
                hashes,
                at,
                tag_at(tags, at),
                maximum_uexp_bytes,
            ) {
                Err(error) => Some(error),
                Ok(false) => Some(mismatch),
                Ok(true) => next,
            }
        }
    }
}

fn check_digests(
    archive: &[u8],
    version: PakVersion,
    entries: &OrderedMap<EntryRecord>,
    hashes: &Vec<PayloadHash>,
    outside: &OutsideReading,
) -> (result: Result<()>)
    requires
        entries.well_formed(),
        hashes@.len() == entries.items@.len(),
    ensures
        seen(result) == check(
            digest_fault_from(
                archive@,
                version,
                entries@,
                hash_views(hashes@),
                0,
                outside@.uexp_tags,
                outside.maximum_uexp_bytes,
            ),
        ),
{
    let mut at: usize = 0;
    while at < entries.items.len()
        invariant
            at <= entries.items@.len(),
            entries.well_formed(),
            hashes@.len() == entries.items@.len(),
            digest_fault_from(
                archive@,
                version,
                entries@,
                hash_views(hashes@),
                0,
                outside@.uexp_tags,
                outside.maximum_uexp_bytes,
            ) == digest_fault_from(
                archive@,
                version,
                entries@,
                hash_views(hashes@),
                at as int,
                outside@.uexp_tags,
                outside.maximum_uexp_bytes,
            ),
        decreases entries.items.len() - at,
    {
        let entry = &entries.items[at].1;
        proof {
            assert(entries@[at as int].1 == entry@);
            assert(hash_views(hashes@)[at as int] == hashes@[at as int]@);
        }
        if !same_bytes(hashes[at].sha1.as_slice(), entry.payload_sha1.as_slice()) {
            let mut accepted = false;
            if version == PakVersion::V3 {
                let none: Option<Vec<u8>> = None;
                let tag = if at < outside.uexp_tags.len() {
                    &outside.uexp_tags[at]
                } else {
                    &none
                };
                proof {
                    assert(match *tag {
                        Some(bytes) => Some(bytes@),
                        None => None,
                    } == tag_at(outside@.uexp_tags, at as int));
                }
                accepted = validate_v3_stale_binary_asset_uexp(
                    archive,
                    entries,
                    hashes,
                    at,
                    tag,
                    outside.maximum_uexp_bytes,
                )?;
            }
            if !accepted {
                return Err(
                    PakError::Sha1Mismatch {
                        region: cat2("file ", entry.path.as_str()),
                        expected: hex_encode(entry.payload_sha1.as_slice()),
                        actual: hex_encode(hashes[at].sha1.as_slice()),
                    },
                );
            }
        }
        at += 1;
    }
    Ok(())
}

/// The files with the digests that their stored bytes were found to have.
pub open spec fn with_hashes(entries: Entries, hashes: Seq<PayloadHashView>) -> Entries {
    Seq::new(
        entries.len(),
        |i: int|
            (
                entries[i].0,
                EntryRecordView {
                    payload_sha1: hashes[i].sha1,
                    stored_sha256: hashes[i].sha256,
                    ..entries[i].1
                },
            ),
    )
}

fn store_hashes(entries: OrderedMap<EntryRecord>, hashes: &Vec<PayloadHash>) -> (result: OrderedMap<
    EntryRecord,
>)
    requires
        entries.well_formed(),
        hashes@.len() == entries.items@.len(),
    ensures
        result.well_formed(),
        result@ == with_hashes(entries@, hash_views(hashes@)),
{
    let mut entries = entries;
    let ghost before = entries@;
    let mut at: usize = 0;
    while at < entries.items.len()
        invariant
            at <= entries.items@.len(),
            entries.items@.len() == before.len(),
            hashes@.len() == before.len(),
            forall|i: int|
                0 <= i < at ==> #[trigger] entries@[i] == with_hashes(before, hash_views(hashes@))[i],
            forall|i: int| at <= i < before.len() ==> #[trigger] entries@[i] == before[i],
        decreases entries.items.len() - at,
    {
        let ghost sooner = entries@;
        let sha1 = slice_to_vec(hashes[at].sha1.as_slice());
        let sha256 = slice_to_vec(hashes[at].sha256.as_slice());
        entries.items[at].1.payload_sha1 = sha1;
        entries.items[at].1.stored_sha256 = sha256;
        proof {
            assert(hash_views(hashes@)[at as int] == hashes@[at as int]@);
            assert(sooner[at as int] == before[at as int]);
            assert forall|i: int| 0 <= i < before.len() && i != at implies #[trigger] entries@[i]
                == sooner[i] by {
            }
        }
        at += 1;
    }
    proof {
        assert(entries@ =~= with_hashes(before, hash_views(hashes@)));
        assert forall|i: int, j: int| 0 <= i < j < entries@.len() implies crate::text::text_less(
            #[trigger] entries@[i].0,
            #[trigger] entries@[j].0,
        ) by {
            assert(entries@[i].0 == before[i].0);
            assert(entries@[j].0 == before[j].0);
        }
    }
    entries
}

/// What the decoders made of the file at `at`; nothing at all counts as a file
/// that they did not find.
pub open spec fn output_at(outputs: Seq<DecoderOutputView>, at: int) -> DecoderOutputView {
    if 0 <= at < outputs.len() {
        outputs[at]
    } else {
        DecoderOutputView {
            reader: Err(RepakErrorView::MissingEntry(Seq::empty())),
            oodle: Err(Seq::empty()),
        }
    }
}

/// Decodes the compressed file at `at` from what the decoders made of it.
pub fn decode_file(archive: &[u8], entry: &EntryRecord, outputs: &Vec<DecoderOutput>, at: usize) -> (result:
    Result<CachedLogicalEntry>)
    ensures
        seen(result) == decoded(archive@, entry@, output_at(output_views(outputs@), at as int)),
{
    if at < outputs.len() {
        proof {
            assert(output_views(outputs@)[at as int] == outputs@[at as int]@);
        }
        decode_entry_with_progress(archive, entry, &outputs[at], false)
    } else {
        let missing = DecoderOutput {
            reader: Err(RepakError::MissingEntry(String::new())),
            oodle: Err(String::new()),
        };
        proof {
            assert(missing@ =~= output_at(output_views(outputs@), at as int));
        }
        decode_entry_with_progress(archive, entry, &missing, false)
    }
}

/// The logical bytes of the compressed files from `done.len()` on.
pub open spec fn contents_from(
    done: Seq<Option<CachedLogicalEntryView>>,
    archive: Seq<u8>,
    entries: Entries,
    outputs: Seq<DecoderOutputView>,
    strict: bool,
) -> std::result::Result<Seq<Option<CachedLogicalEntryView>>, PakErrorView>
    decreases entries.len() - done.len(),
{
    let at = done.len() as int;
    if at >= entries.len() {
        Ok(done)
    } else if strict && entries[at].1.compressed {
        match decoded(archive, entries[at].1, output_at(outputs, at)) {
            Err(error) => Err(error),
            Ok(content) => contents_from(
                done.push(Some(content)),
                archive,
                entries,
                outputs,
                strict,
            ),
        }
    } else {
        contents_from(done.push(None), archive, entries, outputs, strict)
    }
}

pub open spec fn content_views(contents: Seq<Option<CachedLogicalEntry>>) -> Seq<
    Option<CachedLogicalEntryView>,
> {
    contents.map_values(
        |content: Option<CachedLogicalEntry>|
            match content {
                Some(content) => Some(content@),
                None => None,
            },
    )
}

fn decode_contents(
    archive: &[u8],
    entries: &OrderedMap<EntryRecord>,
    outputs: &Vec<DecoderOutput>,
    strict: bool,
) -> (result: Result<Vec<Option<CachedLogicalEntry>>>)
    ensures
        match (
            result,
            contents_from(Seq::empty(), archive@, entries@, output_views(outputs@), strict),
        ) {
            (Ok(contents), Ok(wanted)) => content_views(contents@) == wanted && contents@.len()
                == entries@.len(),
            (Err(error), Err(wanted)) => error@ == wanted,
            _ => false,
        },
{
    let mut contents: Vec<Option<CachedLogicalEntry>> = Vec::new();
    proof {
        assert(content_views(contents@) =~= Seq::empty());
    }
    while contents.len() < entries.items.len()
        invariant
            contents@.len() <= entries.items@.len(),
            contents_from(Seq::empty(), archive@, entries@, output_views(outputs@), strict)
                == contents_from(
                content_views(contents@),
                archive@,
                entries@,
                output_views(outputs@),
                strict,
            ),
        decreases entries.items.len() - contents.len(),
    {
        let at: usize = contents.len();
        let entry = &entries.items[at].1;
        proof {
            assert(entries@[at as int].1 == entry@);
        }
        if strict && entry.compressed {
            let content = decode_file(archive, entry, outputs, at)?;
            proof {
                assert(content_views(contents@.push(Some(content))) =~= content_views(
                    contents@,
                ).push(Some(content@)));
            }
            contents.push(Some(content));
        } else {
            proof {
                assert(content_views(contents@.push(None)) =~= content_views(contents@).push(None));
            }
            contents.push(None);
        }
    }
    Ok(contents)
}

/// The inventory record of one file.
pub open spec fn inventory_of(
    entry: EntryRecordView,
    content: Option<CachedLogicalEntryView>,
    strict: bool,
) -> PakEntryInventoryView {
    PakEntryInventoryView {
        path: entry.path,
        size: entry.size,
        stored_size: entry.stored_size,
        compressed: entry.compressed,
        sha256: hex_text(
            match content {
                Some(content) => content.sha256,
                None => entry.stored_sha256,
            },
        ),
        sha256_is_logical: !entry.compressed || strict,
        header_offset: entry.header_offset,
        payload_sha1: hex_text(entry.payload_sha1),
        stored_payload_sha1: hex_text(entry.stored_payload_sha1),
        payload_sha1_matches: entry.payload_sha1 == entry.stored_payload_sha1,
    }
}

pub open spec fn inventory_entries(
    entries: Entries,
    contents: Seq<Option<CachedLogicalEntryView>>,
    strict: bool,
) -> Seq<PakEntryInventoryView> {
    Seq::new(entries.len(), |i: int| inventory_of(entries[i].1, contents[i], strict))
}

fn list_inventory(
    entries: &OrderedMap<EntryRecord>,
    contents: &Vec<Option<CachedLogicalEntry>>,
    strict: bool,
) -> (result: Vec<PakEntryInventory>)
    requires
        contents@.len() == entries.items@.len(),
    ensures
        inventory_views(result@) == inventory_entries(entries@, content_views(contents@), strict),
{
    let mut result: Vec<PakEntryInventory> = Vec::new();
    let ghost wanted = inventory_entries(entries@, content_views(contents@), strict);
    while result.len() < entries.items.len()
        invariant
            result@.len() <= entries.items@.len(),
            contents@.len() == entries.items@.len(),
            wanted == inventory_entries(entries@, content_views(contents@), strict),
            inventory_views(result@) == wanted.take(result@.len() as int),
        decreases entries.items.len() - result.len(),
    {
        let at: usize = result.len();
        let entry = &entries.items[at].1;
        let sha256 = match &contents[at] {
            Some(content) => hex_encode(content.sha256.as_slice()),
            None => hex_encode(entry.stored_sha256.as_slice()),
        };
        let record = PakEntryInventory {
            path: entry.path.clone(),
            size: entry.size,
            stored_size: entry.stored_size,
            compressed: entry.compressed,
            sha256,
            sha256_is_logical: !entry.compressed || strict,
            header_offset: entry.header_offset,
            payload_sha1: hex_encode(entry.payload_sha1.as_slice()),
            stored_payload_sha1: hex_encode(entry.stored_payload_sha1.as_slice()),
            payload_sha1_matches: same_bytes(
                entry.payload_sha1.as_slice(),
                entry.stored_payload_sha1.as_slice(),
            ),
        };
        proof {
            assert(entries@[at as int].1 == entry@);
            assert(record@ == wanted[at as int]);
            assert(inventory_views(result@.push(record)) =~= inventory_views(result@).push(record@));
            assert(wanted.take(at as int + 1) =~= wanted.take(at as int).push(wanted[at as int]));
        }
        result.push(record);
    }
    assert(wanted.take(wanted.len() as int) =~= wanted);
    result
}

/// A validated, read-only archive.
#[derive(Debug)]
pub struct PakArchive<'a> {
    pub bytes: &'a [u8],
    pub inventory: PakInventory,
    pub entries: OrderedMap<EntryRecord>,
    /// What the decoders make of each file, in the order of the keys.
    pub outputs: &'a Vec<DecoderOutput>,
    /// The logical bytes of the compressed files that were decoded, in the
    /// order of the keys.
    pub contents: Vec<Option<CachedLogicalEntry>>,
}

#[verifier::ext_equal]
pub struct PakArchiveView {
    pub bytes: Seq<u8>,
    pub inventory: PakInventoryView,
    pub entries: Entries,
    pub outputs: Seq<DecoderOutputView>,
    pub contents: Seq<Option<CachedLogicalEntryView>>,
}

/// The logical bytes of the compressed file at `at` and their digest.
pub open spec fn content_of(archive: PakArchiveView, at: int) -> std::result::Result<
    CachedLogicalEntryView,
    PakErrorView,
> {
    decoded(archive.bytes, archive.entries[at].1, output_at(archive.outputs, at))
}

/// Whatever is kept of a file is what its decoding yields.
pub open spec fn contents_sound(archive: PakArchiveView) -> bool {
    &&& archive.contents.len() == archive.entries.len()
    &&& forall|i: int|
        0 <= i < archive.contents.len() && (#[trigger] archive.contents[i]) is Some
            ==> archive.entries[i].1.compressed && content_of(archive, i) == Ok::<
            CachedLogicalEntryView,
            PakErrorView,
        >(archive.contents[i]->0)
}

impl<'a> View for PakArchive<'a> {
    type V = PakArchiveView;

    open spec fn view(&self) -> PakArchiveView {
        PakArchiveView {
            bytes: self.bytes@,
            inventory: self.inventory@,
            entries: self.entries@,
            outputs: output_views(self.outputs@),
            contents: content_views(self.contents@),
        }
    }
}

pub open spec fn no_contents(count: nat) -> Seq<Option<CachedLogicalEntryView>> {
    Seq::new(count, |i: int| None)
}

/// The archive that `archive` holds, as far as `validation` checks it.
#[verifier::opaque]
pub open spec fn opened(
    path: Seq<char>,
    archive: Seq<u8>,
    validation: LogicalValidation,
    outside: OutsideReadingView,
) -> std::result::Result<PakArchiveView, PakErrorView> {
    if archive.len() < MIN_PAK_FOOTER_SIZE {
        Err(PakErrorView::TooSmall { actual: archive.len() as u64 })
    } else {
        match detected_footer(archive) {
            Err(error) => Err(error),
            Ok(detected) => match indexes_of(archive, detected) {
                Err(error) => Err(error),
                Ok(parsed) => match outside_fault(detected.version, parsed, outside) {
                    Some(error) => Err(error),
                    None => match work_of(archive.len() as u64, parsed.entries, validation) {
                        Err(error) => Err(error),
                        Ok(_) => match hashes_from(Seq::empty(), archive, parsed.entries) {
                            Err(error) => Err(error),
                            Ok(hashes) => match digest_fault_from(
                                archive,
                                detected.version,
                                parsed.entries,
                                hashes,
                                0,
                                outside.uexp_tags,
                                outside.maximum_uexp_bytes,
                            ) {
                                Some(error) => Err(error),
                                None => opened_with(
                                    path,
                                    archive,
                                    validation,
                                    outside,
                                    detected.footer,
                                    parsed.mount_point,
                                    parsed.path_hash_seed,
                                    with_hashes(parsed.entries, hashes),
                                ),
                            },
                        },
                    },
                },
            },
        }
    }
}

/// The archive whose files were found to be stored as the list says.
pub open spec fn opened_with(
    path: Seq<char>,
    archive: Seq<u8>,
    validation: LogicalValidation,
    outside: OutsideReadingView,
    footer: PakFooterInfoView,
    mount_point: Seq<char>,
    path_hash_seed: u64,
    entries: Entries,
) -> std::result::Result<PakArchiveView, PakErrorView> {
    match contents_from(Seq::empty(), archive, entries, outside.outputs, validation.strict()) {
        Err(error) => Err(error),
        Ok(contents) => match grouped(paths_of(entries)) {
            Err(error) => Err(error),
            Ok(packages) => Ok(
                PakArchiveView {
                    bytes: archive,
                    inventory: PakInventoryView {
                        source_path: path,
                        archive_size: archive.len() as u64,
                        archive_sha256: hex_text(sha256_digest(archive)),
                        footer,
                        mount_point,
                        path_hash_seed,
                        entries: inventory_entries(entries, contents, validation.strict()),
                        packages,
                    },
                    entries,
                    outputs: outside.outputs,
                    contents: if validation == LogicalValidation::StrictRetain {
                        contents
                    } else {
                        no_contents(entries.len())
                    },
                },
            ),
        },
    }
}

/// One record for each file that was hashed.
pub proof fn hashes_are_aligned(done: Seq<PayloadHashView>, archive: Seq<u8>, rest: Entries)
    ensures
        hashes_from(done, archive, rest) matches Ok(hashes) ==> hashes.len() == done.len() + rest.len(),
    decreases rest.len(),
{
    if rest.len() > 0 && super::archive::payload_fault(archive.len() as int, rest[0].1) is None {
        let payload = super::archive::payload_of(archive, rest[0].1);
        hashes_are_aligned(
            done.push(
                PayloadHashView { sha1: sha1_digest(payload), sha256: sha256_digest(payload) },
            ),
            archive,
            rest.skip(1),
        );
    }
}

/// Every file that is decoded while an archive is opened is kept as its decoding
/// yields it.
proof fn decoded_contents_are_sound(
    done: Seq<Option<CachedLogicalEntryView>>,
    archive: Seq<u8>,
    entries: Entries,
    outputs: Seq<DecoderOutputView>,
    strict: bool,
)
    requires
        done.len() <= entries.len(),
        forall|i: int|
            0 <= i < done.len() && (#[trigger] done[i]) is Some ==> entries[i].1.compressed
                && decoded(archive, entries[i].1, output_at(outputs, i)) == Ok::<
                CachedLogicalEntryView,
                PakErrorView,
            >(done[i]->0),
    ensures
        contents_from(done, archive, entries, outputs, strict) matches Ok(contents) ==> {
            &&& contents.len() == entries.len()
            &&& forall|i: int|
                0 <= i < contents.len() && (#[trigger] contents[i]) is Some
                    ==> entries[i].1.compressed && decoded(
                    archive,
                    entries[i].1,
                    output_at(outputs, i),
                ) == Ok::<CachedLogicalEntryView, PakErrorView>(contents[i]->0)
        },
    decreases entries.len() - done.len(),
{
    let at = done.len() as int;
    if at < entries.len() {
        if strict && entries[at].1.compressed {
            match decoded(archive, entries[at].1, output_at(outputs, at)) {
                Err(_) => {},
                Ok(content) => {
                    decoded_contents_are_sound(
                        done.push(Some(content)),
                        archive,
                        entries,
                        outputs,
                        strict,
                    );
                },
            }
        } else {
            decoded_contents_are_sound(done.push(None), archive, entries, outputs, strict);
        }
    }
}

fn empty_contents(count: usize) -> (result: Vec<Option<CachedLogicalEntry>>)
    ensures
        content_views(result@) == no_contents(count as nat),
        result@.len() == count,
{
    let mut result: Vec<Option<CachedLogicalEntry>> = Vec::new();
    while result.len() < count
        invariant
            result@.len() <= count,
            forall|i: int| 0 <= i < result@.len() ==> #[trigger] result@[i] is None,
        decreases count - result.len(),
    {
        result.push(None);
    }
    assert(content_views(result@) =~= no_contents(count as nat));
    result
}

impl<'a> PakArchive<'a> {
    pub open spec fn well_formed(&self) -> bool {
        &&& self.entries.well_formed()
        &&& self.contents@.len() == self.entries.items@.len()
        &&& contents_sound(self@)
        &&& files_sound(self@)
    }

    /// Opens the archive that stands at `path` and holds `archive`.
    pub fn open_internal_with_policy(
        path: &str,
        archive: &'a [u8],
        logical_validation: LogicalValidation,
        outside: &'a OutsideReading,
        cancelled: bool,
    ) -> (result: Result<PakArchive<'a>>)
        ensures
            seen(result) == if cancelled {
                Err(PakErrorView::Cancelled)
            } else {
                opened(path@, archive@, logical_validation, outside@)
            },
            result matches Ok(opened) ==> opened.well_formed() && opened.bytes == archive,
    {
        proof {
            reveal(opened);
        }
        if cancelled {
            return Err(PakError::Cancelled);
        }
        let archive_size: u64 = archive.len() as u64;
        if archive_size < MIN_PAK_FOOTER_SIZE {
            return Err(PakError::TooSmall { actual: archive_size });
        }
        let detected = read_footer(archive)?;
        let parsed = parse_and_validate_indexes(archive, &detected)?;
        confirm_outside_reading(detected.version, &parsed, outside)?;
        total_work_bytes(archive_size, &parsed.entries, logical_validation)?;
        let (archive_sha256, hashes) = hash_archive_and_entry_payloads(archive, &parsed.entries)?;
        proof {
            hashes_are_aligned(Seq::empty(), archive@, parsed.entries@);
        }
        check_digests(archive, detected.version, &parsed.entries, &hashes, outside)?;
        let entries = store_hashes(parsed.entries, &hashes);
        let strict = logical_validation.is_strict();
        let contents = decode_contents(archive, &entries, &outside.outputs, strict)?;
        proof {
            decoded_contents_are_sound(
                Seq::empty(),
                archive@,
                entries@,
                outside@.outputs,
                strict,
            );
        }
        let inventory_entries = list_inventory(&entries, &contents, strict);
        let packages = group_packages(&list_entry_paths(&entries))?;
        let inventory = PakInventory {
            source_path: path.to_owned(),
            archive_size,
            archive_sha256,
            footer: detected.footer,
            mount_point: parsed.mount_point,
            path_hash_seed: parsed.path_hash_seed,
            entries: inventory_entries,
            packages,
        };
        let contents = if logical_validation.retains_decoded_entries() {
            contents
        } else {
            empty_contents(entries.items.len())
        };
        let opened_archive = PakArchive {
            bytes: archive,
            inventory,
            entries,
            outputs: &outside.outputs,
            contents,
        };
        proof {
            assert(opened(path@, archive@, logical_validation, outside@) == Ok::<
                PakArchiveView,
                PakErrorView,
            >(opened_archive@));
            opened_files_are_sound(path@, archive@, logical_validation, outside@);
        }
        Ok(opened_archive)
    }
}

} // verus!
