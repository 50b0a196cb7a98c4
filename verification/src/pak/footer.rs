//! The footer of a Pak and the regions that it points to.
use vstd::prelude::*;
use vstd::slice::{slice_subrange, slice_to_vec};
use vstd::utf8::{decode_utf8, valid_utf8};

use super::error::{corrupt, seen, unsupported, PakError, PakErrorView, Result};
use crate::text::text_view;
use super::reader::{le32, le64, u32_le, u64_le, MAX_INDEX_BYTES};
use crate::digest::{same_bytes, sha1_digest, sha1_of};
use crate::text::{
    cat2, cat3, cat4, cat5, dec, decimal, hex_bytes, hex_decode, hex_encode, hex_text, is_hex_text,
    texts, texts_push, utf8_text,
};

verus! {

/// Unreal's Pak magic, serialized little-endian in the footer.
pub const PAK_MAGIC: u32 = 0x5A6F_12E1;

/// Output version. Input may have any version from 0 to 11.
pub const SUPPORTED_PAK_VERSION: u32 = 11;

pub const MIN_PAK_FOOTER_SIZE: u64 = 44;

pub const PAK_V11_FOOTER_SIZE: u64 = 221;

/// The footer layouts, of which version 8 has two.
#[derive(Debug, Clone, Copy, PartialEq, Eq, Structural)]
pub enum PakVersion {
    V0,
    V1,
    V2,
    V3,
    V4,
    V5,
    V6,
    V7,
    V8A,
    V8B,
    V9,
    V10,
    V11,
}

impl PakVersion {
    /// The version number that the footer holds.
    pub open spec fn number(self) -> int {
        match self {
            PakVersion::V0 => 0,
            PakVersion::V1 => 1,
            PakVersion::V2 => 2,
            PakVersion::V3 => 3,
            PakVersion::V4 => 4,
            PakVersion::V5 => 5,
            PakVersion::V6 => 6,
            PakVersion::V7 => 7,
            PakVersion::V8A => 8,
            PakVersion::V8B => 8,
            PakVersion::V9 => 9,
            PakVersion::V10 => 10,
            PakVersion::V11 => 11,
        }
    }

    pub fn version_major(self) -> (result: u32)
        ensures
            result == self.number(),
    {
        match self {
            PakVersion::V0 => 0,
            PakVersion::V1 => 1,
            PakVersion::V2 => 2,
            PakVersion::V3 => 3,
            PakVersion::V4 => 4,
            PakVersion::V5 => 5,
            PakVersion::V6 => 6,
            PakVersion::V7 => 7,
            PakVersion::V8A => 8,
            PakVersion::V8B => 8,
            PakVersion::V9 => 9,
            PakVersion::V10 => 10,
            PakVersion::V11 => 11,
        }
    }

    /// How many codec names the footer holds.
    pub open spec fn slots(self) -> int {
        if self.number() < 8 {
            0
        } else if self == PakVersion::V8A {
            4
        } else {
            5
        }
    }

    /// How many bytes the footer has.
    pub open spec fn footer_len(self) -> int {
        prefix_len(self) + 44 + if self == PakVersion::V9 {
            1int
        } else {
            0
        } + 32 * self.slots()
    }

    pub fn size(self) -> (result: usize)
        ensures
            result == self.footer_len(),
    {
        footer_prefix_size(self.version_major()) + 44 + (if self == PakVersion::V9 {
            1usize
        } else {
            0
        }) + 32 * self.slot_count()
    }

    pub fn slot_count(self) -> (result: usize)
        ensures
            result == self.slots(),
            result <= 5,
    {
        if self.version_major() < 8 {
            0
        } else if self == PakVersion::V8A {
            4
        } else {
            5
        }
    }
}

/// How many bytes stand before the magic: a key identifier from version 7 on,
/// an encryption flag from version 4 on.
pub open spec fn prefix_len(version: PakVersion) -> int {
    if version.number() >= 7 {
        17
    } else if version.number() >= 4 {
        1
    } else {
        0
    }
}

pub fn footer_prefix_size(version: u32) -> (result: usize)
    ensures
        result == if version >= 7 {
            17int
        } else if version >= 4 {
            1
        } else {
            0
        },
{
    if version >= 7 {
        17
    } else if version >= 4 {
        1
    } else {
        0
    }
}

#[derive(Debug, Clone, PartialEq, Eq)]
pub struct PakFooterInfo {
    pub version: u32,
    pub encrypted_index: bool,
    pub index_offset: u64,
    pub index_size: u64,
    pub index_sha1: String,
    /// Names declared in the footer. A declared codec is not necessarily used
    /// by an entry.
    pub compression_slots: Vec<String>,
}

#[verifier::ext_equal]
pub struct PakFooterInfoView {
    pub version: u32,
    pub encrypted_index: bool,
    pub index_offset: u64,
    pub index_size: u64,
    pub index_sha1: Seq<char>,
    pub compression_slots: Seq<Seq<char>>,
}

impl View for PakFooterInfo {
    type V = PakFooterInfoView;

    open spec fn view(&self) -> PakFooterInfoView {
        PakFooterInfoView {
            version: self.version,
            encrypted_index: self.encrypted_index,
            index_offset: self.index_offset,
            index_size: self.index_size,
            index_sha1: self.index_sha1@,
            compression_slots: texts(self.compression_slots@),
        }
    }
}

impl PakFooterInfo {
    pub fn copy(&self) -> (result: Self)
        ensures
            result@ == self@,
    {
        PakFooterInfo {
            version: self.version,
            encrypted_index: self.encrypted_index,
            index_offset: self.index_offset,
            index_size: self.index_size,
            index_sha1: self.index_sha1.clone(),
            compression_slots: crate::text::clone_texts(&self.compression_slots),
        }
    }
}

/// The footer that an archive was found to have.
#[derive(Debug)]
pub struct DetectedFooter {
    pub version: PakVersion,
    pub footer_offset: u64,
    pub footer: PakFooterInfo,
    /// Codec names with their original positions intact. Versions older than 8
    /// have the fixed slots Zlib, Gzip and Oodle.
    pub compression_codecs: Vec<Option<String>>,
}

#[verifier::ext_equal]
pub struct DetectedFooterView {
    pub version: PakVersion,
    pub footer_offset: u64,
    pub footer: PakFooterInfoView,
    pub compression_codecs: Seq<Option<Seq<char>>>,
}

pub open spec fn codec_views(codecs: Seq<Option<String>>) -> Seq<Option<Seq<char>>> {
    codecs.map_values(|codec: Option<String>| text_view(codec))
}

impl View for DetectedFooter {
    type V = DetectedFooterView;

    open spec fn view(&self) -> DetectedFooterView {
        DetectedFooterView {
            version: self.version,
            footer_offset: self.footer_offset,
            footer: self.footer@,
            compression_codecs: codec_views(self.compression_codecs@),
        }
    }
}

/// How many bytes stand before the first NUL.
pub open spec fn nul_at(slot: Seq<u8>) -> int
    decreases slot.len(),
{
    if slot.len() == 0 || slot[0] == 0 {
        0
    } else {
        1 + nul_at(slot.skip(1))
    }
}

pub proof fn nul_at_bounds(slot: Seq<u8>)
    ensures
        0 <= nul_at(slot) <= slot.len(),
    decreases slot.len(),
{
    if slot.len() > 0 && slot[0] != 0 {
        nul_at_bounds(slot.skip(1));
    }
}

/// The codec that a slot names, if it names one.
pub open spec fn codec_name(slot: Seq<u8>) -> std::result::Result<Option<Seq<char>>, PakErrorView> {
    let end = nul_at(slot);
    if exists|i: int| end <= i < slot.len() && #[trigger] slot[i] != 0 {
        corrupt("compression slot has non-NUL data after terminator"@)
    } else if end == 0 {
        Ok(None)
    } else if valid_utf8(slot.take(end)) {
        Ok(Some(decode_utf8(slot.take(end))))
    } else {
        corrupt("compression slot is not UTF-8"@)
    }
}

/// The codecs that `count` more slots name, after those read already.
pub open spec fn codec_names_from(
    done: Seq<Option<Seq<char>>>,
    bytes: Seq<u8>,
    at: int,
    count: int,
) -> std::result::Result<Seq<Option<Seq<char>>>, PakErrorView>
    decreases count,
{
    if count <= 0 {
        Ok(done)
    } else {
        match codec_name(bytes.subrange(at, at + 32)) {
            Err(error) => Err(error),
            Ok(name) => codec_names_from(done.push(name), bytes, at + 32, count - 1),
        }
    }
}

/// The slots that name a codec.
pub open spec fn named_slots(codecs: Seq<Option<Seq<char>>>) -> Seq<Seq<char>>
    decreases codecs.len(),
{
    if codecs.len() == 0 {
        Seq::empty()
    } else {
        match codecs.last() {
            Some(name) => named_slots(codecs.drop_last()).push(name),
            None => named_slots(codecs.drop_last()),
        }
    }
}

/// The codecs of an archive of `version` whose footer is `bytes`.
pub open spec fn footer_codecs(version: PakVersion, bytes: Seq<u8>) -> std::result::Result<
    Seq<Option<Seq<char>>>,
    PakErrorView,
> {
    if version.slots() == 0 {
        Ok(seq![Some("Zlib"@), Some("Gzip"@), Some("Oodle"@)])
    } else {
        codec_names_from(
            Seq::empty(),
            bytes,
            version.footer_len() - 32 * version.slots(),
            version.slots(),
        )
    }
}

/// A region of a Pak must have bytes and lie below `limit`.
pub open spec fn region_fault(name: Seq<char>, offset: u64, size: u64, limit: u64) -> Option<
    PakErrorView,
> {
    if offset + size > u64::MAX {
        Some(PakErrorView::Corrupt(name + " range overflows u64"@))
    } else if size == 0 || offset >= limit || offset + size > limit {
        Some(
            PakErrorView::Corrupt(
                name + " range "@ + dec(offset as nat) + ".."@ + (dec((offset + size) as nat)
                    + " lies outside 0.."@ + dec(limit as nat)),
            ),
        )
    } else {
        None
    }
}

pub open spec fn check(fault: Option<PakErrorView>) -> std::result::Result<(), PakErrorView> {
    match fault {
        Some(error) => Err(error),
        None => Ok(()),
    }
}

pub fn validate_region(name: &str, offset: u64, size: u64, limit: u64) -> (result: Result<()>)
    ensures
        seen(result) == check(region_fault(name@, offset, size, limit)),
{
    let end: u64 = match offset.checked_add(size) {
        Some(end) => end,
        None => {
            return Err(PakError::Corrupt(cat2(name, " range overflows u64")));
        },
    };
    if size == 0 || offset >= limit || end > limit {
        return Err(
            PakError::Corrupt(
                cat5(
                    name,
                    " range ",
                    decimal(offset).as_str(),
                    "..",
                    cat3(decimal(end).as_str(), " lies outside 0..", decimal(limit).as_str()).as_str(),
                ),
            ),
        );
    }
    Ok(())
}

/// What the footer bytes of an archive of `version` say.
pub open spec fn footer_of(version: PakVersion, footer_offset: u64, bytes: Seq<u8>) -> std::result::Result<
    DetectedFooterView,
    PakErrorView,
> {
    let at = prefix_len(version);
    let number = version.number();
    if number >= 4 && bytes[at - 1] > 1 {
        corrupt("footer encryption flag"@ + " is not boolean: "@ + dec(bytes[at - 1] as nat))
    } else if le32(bytes, at) != PAK_MAGIC {
        Err(PakErrorView::InvalidMagic { actual: le32(bytes, at) as u32, expected: PAK_MAGIC })
    } else if le32(bytes, at + 4) != number {
        Err(PakErrorView::UnsupportedVersion { actual: le32(bytes, at + 4) as u32 })
    } else if number >= 4 && bytes[at - 1] == 1 {
        Err(PakErrorView::EncryptedIndex)
    } else if number == 9 && bytes[at + 44] > 1 {
        corrupt("frozen index flag"@ + " is not boolean: "@ + dec(bytes[at + 44] as nat))
    } else if number == 9 && bytes[at + 44] == 1 {
        unsupported("frozen v9 indexes are not supported"@)
    } else {
        match footer_codecs(version, bytes) {
            Err(error) => Err(error),
            Ok(codecs) => {
                let offset = le64(bytes, at + 8) as u64;
                let size = le64(bytes, at + 16) as u64;
                match region_fault("primary index"@, offset, size, footer_offset) {
                    Some(error) => Err(error),
                    None => if size > MAX_INDEX_BYTES {
                        unsupported(
                            "primary index is "@ + dec(size as nat) + " bytes (limit "@ + dec(
                                MAX_INDEX_BYTES as nat,
                            ) + ")"@,
                        )
                    } else {
                        Ok(
                            DetectedFooterView {
                                version,
                                footer_offset,
                                footer: PakFooterInfoView {
                                    version: number as u32,
                                    encrypted_index: false,
                                    index_offset: offset,
                                    index_size: size,
                                    index_sha1: hex_text(bytes.subrange(at + 24, at + 44)),
                                    compression_slots: named_slots(codecs),
                                },
                                compression_codecs: codecs,
                            },
                        )
                    },
                }
            },
        }
    }
}

/// A flag byte that is neither 0 nor 1.
fn not_boolean(name: &str, value: u8) -> (error: PakError)
    ensures
        error@ == PakErrorView::Corrupt(name@ + " is not boolean: "@ + dec(value as nat)),
{
    PakError::Corrupt(cat3(name, " is not boolean: ", decimal(value as u64).as_str()))
}

fn read_codec(slot: &[u8]) -> (result: Result<Option<String>>)
    ensures
        match (result, codec_name(slot@)) {
            (Ok(name), Ok(wanted)) => text_view(name) == wanted,
            (Err(error), Err(wanted)) => error@ == wanted,
            _ => false,
        },
{
    let mut end: usize = 0;
    proof {
        assert(slot@.skip(0) == slot@);
    }
    while end < slot.len() && slot[end] != 0
        invariant
            end <= slot@.len(),
            nul_at(slot@) == end + nul_at(slot@.skip(end as int)),
        decreases slot.len() - end,
    {
        assert(slot@.skip(end as int).skip(1) == slot@.skip(end as int + 1));
        end += 1;
    }
    let mut at: usize = end;
    while at < slot.len()
        invariant
            end <= at <= slot@.len(),
            nul_at(slot@) == end,
            forall|i: int| end <= i < at ==> #[trigger] slot@[i] == 0,
        decreases slot.len() - at,
    {
        if slot[at] != 0 {
            return Err(
                PakError::Corrupt("compression slot has non-NUL data after terminator".to_owned()),
            );
        }
        at += 1;
    }
    if end == 0 {
        return Ok(None);
    }
    let name = slice_to_vec(slice_subrange(slot, 0, end));
    assert(name@ == slot@.take(end as int));
    match utf8_text(name) {
        Some(name) => Ok(Some(name)),
        None => Err(PakError::Corrupt("compression slot is not UTF-8".to_owned())),
    }
}

fn read_codecs(version: PakVersion, bytes: &[u8]) -> (result: Result<Vec<Option<String>>>)
    requires
        bytes@.len() == version.footer_len(),
    ensures
        match (result, footer_codecs(version, bytes@)) {
            (Ok(codecs), Ok(wanted)) => codec_views(codecs@) == wanted,
            (Err(error), Err(wanted)) => error@ == wanted,
            _ => false,
        },
{
    let count: usize = version.slot_count();
    let mut codecs: Vec<Option<String>> = Vec::new();
    if count == 0 {
        codecs.push(Some("Zlib".to_owned()));
        codecs.push(Some("Gzip".to_owned()));
        codecs.push(Some("Oodle".to_owned()));
        assert(codec_views(codecs@) =~= seq![Some("Zlib"@), Some("Gzip"@), Some("Oodle"@)]);
        return Ok(codecs);
    }
    let first: usize = bytes.len() - 32 * count;
    let mut index: usize = 0;
    proof {
        assert(codec_views(codecs@) =~= Seq::<Option<Seq<char>>>::empty());
    }
    while index < count
        invariant
            index <= count <= 5,
            count == version.slots(),
            bytes@.len() == version.footer_len(),
            first + 32 * count == bytes@.len(),
            footer_codecs(version, bytes@) == codec_names_from(
                codec_views(codecs@),
                bytes@,
                first + 32 * index,
                count - index,
            ),
            count > 0,
        decreases count - index,
    {
        let slot = slice_subrange(bytes, first + 32 * index, first + 32 * index + 32);
        let name = read_codec(slot)?;
        proof {
            assert(codec_views(codecs@.push(name)) =~= codec_views(codecs@).push(text_view(name)));
        }
        codecs.push(name);
        index += 1;
    }
    Ok(codecs)
}

fn collect_slots(codecs: &Vec<Option<String>>) -> (result: Vec<String>)
    ensures
        texts(result@) == named_slots(codec_views(codecs@)),
{
    let mut result: Vec<String> = Vec::new();
    let mut at: usize = 0;
    let ghost all = codec_views(codecs@);
    proof {
        assert(texts(result@) =~= named_slots(all.take(0)));
    }
    while at < codecs.len()
        invariant
            at <= codecs@.len(),
            all == codec_views(codecs@),
            texts(result@) == named_slots(all.take(at as int)),
        decreases codecs.len() - at,
    {
        proof {
            assert(all.take(at as int + 1).drop_last() =~= all.take(at as int));
            assert(all.take(at as int + 1).last() == text_view(codecs@[at as int]));
        }
        if let Some(name) = &codecs[at] {
            let name = name.clone();
            proof {
                texts_push(result@, name);
            }
            result.push(name);
        }
        at += 1;
    }
    assert(all.take(at as int) =~= all);
    result
}

pub fn parse_footer(version: PakVersion, footer_offset: u64, bytes: &[u8]) -> (result: Result<
    DetectedFooter,
>)
    requires
        bytes@.len() == version.footer_len(),
    ensures
        seen(result) == footer_of(version, footer_offset, bytes@),
        result matches Ok(detected) ==> detected.footer_offset == footer_offset
            && detected.footer.index_offset + detected.footer.index_size <= footer_offset,
{
    let number: u32 = version.version_major();
    let at: usize = footer_prefix_size(number);
    if number >= 4 && bytes[at - 1] > 1 {
        return Err(not_boolean("footer encryption flag", bytes[at - 1]));
    }
    let magic: u32 = u32_le(bytes, at);
    if magic != PAK_MAGIC {
        return Err(PakError::InvalidMagic { actual: magic, expected: PAK_MAGIC });
    }
    let actual: u32 = u32_le(bytes, at + 4);
    if actual != number {
        return Err(PakError::UnsupportedVersion { actual });
    }
    if number >= 4 && bytes[at - 1] == 1 {
        return Err(PakError::EncryptedIndex);
    }
    let index_offset: u64 = u64_le(bytes, at + 8);
    let index_size: u64 = u64_le(bytes, at + 16);
    if number == 9 && bytes[at + 44] > 1 {
        return Err(not_boolean("frozen index flag", bytes[at + 44]));
    }
    if number == 9 && bytes[at + 44] == 1 {
        return Err(
            PakError::UnsupportedLayout("frozen v9 indexes are not supported".to_owned()),
        );
    }
    let compression_codecs = read_codecs(version, bytes)?;
    let compression_slots = collect_slots(&compression_codecs);
    validate_region("primary index", index_offset, index_size, footer_offset)?;
    if index_size > MAX_INDEX_BYTES {
        return Err(
            PakError::UnsupportedLayout(
                cat5(
                    "primary index is ",
                    decimal(index_size).as_str(),
                    " bytes (limit ",
                    decimal(MAX_INDEX_BYTES).as_str(),
                    ")",
                ),
            ),
        );
    }
    let index_digest = slice_to_vec(slice_subrange(bytes, at + 24, at + 44));
    let index_sha1 = hex_encode(index_digest.as_slice());
    Ok(
        DetectedFooter {
            version,
            footer_offset,
            footer: PakFooterInfo {
                version: number,
                encrypted_index: false,
                index_offset,
                index_size,
                index_sha1,
                compression_slots,
            },
            compression_codecs,
        },
    )
}

/// The digest that a hexadecimal text stands for.
pub open spec fn decoded_sha1(text: Seq<char>) -> std::result::Result<Seq<u8>, PakErrorView> {
    if !is_hex_text(text) {
        corrupt("invalid SHA-1 encoding"@)
    } else if hex_bytes(text).len() != 20 {
        corrupt("invalid SHA-1 length"@)
    } else {
        Ok(hex_bytes(text))
    }
}

pub fn decode_sha1(value: &str) -> (result: Result<Vec<u8>>)
    ensures
        seen(result) == decoded_sha1(value@),
{
    match hex_decode(value) {
        None => Err(PakError::Corrupt("invalid SHA-1 encoding".to_owned())),
        Some(bytes) => if bytes.len() != 20 {
            Err(PakError::Corrupt("invalid SHA-1 length".to_owned()))
        } else {
            Ok(bytes)
        },
    }
}

/// The version that stands behind the magic where a footer of `version` would
/// have it, if the magic is there.
pub open spec fn signature(archive: Seq<u8>, version: PakVersion) -> Option<u32> {
    let at = archive.len() - version.footer_len() + prefix_len(version);
    if archive.len() >= version.footer_len() && le32(archive, at) == PAK_MAGIC {
        Some(le32(archive, at + 4) as u32)
    } else {
        None
    }
}

/// The versions in the order in which their footers are tried.
pub open spec fn tried_versions() -> Seq<PakVersion> {
    seq![
        PakVersion::V11,
        PakVersion::V10,
        PakVersion::V9,
        PakVersion::V8B,
        PakVersion::V8A,
        PakVersion::V7,
        PakVersion::V6,
        PakVersion::V5,
        PakVersion::V4,
        PakVersion::V3,
        PakVersion::V2,
        PakVersion::V1,
        PakVersion::V0,
    ]
}

/// The footers that fit, and the least version among those that do not.
pub open spec fn candidates(
    archive: Seq<u8>,
    fitting: Seq<PakVersion>,
    other: Option<u32>,
    rest: Seq<PakVersion>,
) -> (Seq<PakVersion>, Option<u32>)
    decreases rest.len(),
{
    if rest.len() == 0 {
        (fitting, other)
    } else {
        match signature(archive, rest[0]) {
            None => candidates(archive, fitting, other, rest.skip(1)),
            Some(found) => if found == rest[0].number() {
                candidates(archive, fitting.push(rest[0]), other, rest.skip(1))
            } else {
                let least = match other {
                    Some(before) if before <= found => before,
                    _ => found,
                };
                candidates(archive, fitting, Some(least), rest.skip(1))
            },
        }
    }
}

/// The one footer that an archive has.
pub open spec fn detected_footer(archive: Seq<u8>) -> std::result::Result<
    DetectedFooterView,
    PakErrorView,
> {
    let (fitting, other) = candidates(archive, Seq::empty(), None, tried_versions());
    if fitting.len() > 1 {
        corrupt("archive contains multiple plausible Pak footers"@)
    } else if fitting.len() == 0 {
        match other {
            Some(actual) => Err(PakErrorView::UnsupportedVersion { actual }),
            None => Err(
                PakErrorView::InvalidMagic {
                    actual: le32(archive, archive.len() - MIN_PAK_FOOTER_SIZE) as u32,
                    expected: PAK_MAGIC,
                },
            ),
        }
    } else {
        let version = fitting[0];
        let start = archive.len() - version.footer_len();
        footer_of(version, start as u64, archive.skip(start))
    }
}

fn versions() -> (result: Vec<PakVersion>)
    ensures
        result@ == tried_versions(),
{
    let mut result: Vec<PakVersion> = Vec::new();
    result.push(PakVersion::V11);
    result.push(PakVersion::V10);
    result.push(PakVersion::V9);
    result.push(PakVersion::V8B);
    result.push(PakVersion::V8A);
    result.push(PakVersion::V7);
    result.push(PakVersion::V6);
    result.push(PakVersion::V5);
    result.push(PakVersion::V4);
    result.push(PakVersion::V3);
    result.push(PakVersion::V2);
    result.push(PakVersion::V1);
    result.push(PakVersion::V0);
    result
}

pub fn read_footer(archive: &[u8]) -> (result: Result<DetectedFooter>)
    requires
        archive@.len() >= MIN_PAK_FOOTER_SIZE,
    ensures
        seen(result) == detected_footer(archive@),
        result matches Ok(detected) ==> detected.footer_offset <= archive@.len()
            && detected.footer.index_offset + detected.footer.index_size <= detected.footer_offset,
{
    let tried = versions();
    let mut fitting: Vec<PakVersion> = Vec::new();
    let mut other: Option<u32> = None;
    let mut index: usize = 0;
    proof {
        assert(tried@.skip(0) == tried@);
    }
    while index < tried.len()
        invariant
            index <= tried@.len(),
            tried@ == tried_versions(),
            forall|i: int| #![auto] 0 <= i < fitting@.len() ==> fitting@[i].footer_len() <= archive@.len(),
            candidates(archive@, Seq::empty(), None, tried_versions()) == candidates(
                archive@,
                fitting@,
                other,
                tried@.skip(index as int),
            ),
        decreases tried.len() - index,
    {
        let version = tried[index];
        proof {
            assert(tried@.skip(index as int)[0] == version);
            assert(tried@.skip(index as int).skip(1) == tried@.skip(index as int + 1));
        }
        let footer_size: usize = version.size();
        if archive.len() >= footer_size {
            let at: usize = archive.len() - footer_size + footer_prefix_size(version.version_major());
            if u32_le(archive, at) == PAK_MAGIC {
                let found: u32 = u32_le(archive, at + 4);
                if found == version.version_major() {
                    fitting.push(version);
                } else {
                    other = match other {
                        Some(before) => if before <= found {
                            Some(before)
                        } else {
                            Some(found)
                        },
                        None => Some(found),
                    };
                }
            }
        }
        index += 1;
    }
    if fitting.len() > 1 {
        return Err(
            PakError::Corrupt("archive contains multiple plausible Pak footers".to_owned()),
        );
    }
    if fitting.len() == 0 {
        return match other {
            Some(actual) => Err(PakError::UnsupportedVersion { actual }),
            None => Err(
                PakError::InvalidMagic {
                    actual: u32_le(archive, archive.len() - 44),
                    expected: PAK_MAGIC,
                },
            ),
        };
    }
    let version = fitting[0];
    let start: usize = archive.len() - version.size();
    let bytes = slice_subrange(archive, start, archive.len());
    assert(bytes@ == archive@.skip(start as int));
    parse_footer(version, start as u64, bytes)
}

/// A region of an archive and the digest that it must have.
#[derive(Debug)]
pub struct IndexRegion {
    pub name: &'static str,
    pub offset: u64,
    pub size: u64,
    pub expected_sha1: Vec<u8>,
}

#[verifier::ext_equal]
pub struct IndexRegionView {
    pub name: Seq<char>,
    pub offset: u64,
    pub size: u64,
    pub expected_sha1: Seq<u8>,
}

impl View for IndexRegion {
    type V = IndexRegionView;

    open spec fn view(&self) -> IndexRegionView {
        IndexRegionView {
            name: self.name@,
            offset: self.offset,
            size: self.size,
            expected_sha1: self.expected_sha1@,
        }
    }
}

/// The bytes of a region that lies below `limit` and has the digest it must
/// have.
pub open spec fn verified_region(archive: Seq<u8>, region: IndexRegionView, limit: u64) -> std::result::Result<
    Seq<u8>,
    PakErrorView,
> {
    match region_fault(region.name, region.offset, region.size, limit) {
        Some(error) => Err(error),
        None => if region.size > MAX_INDEX_BYTES {
            unsupported(region.name + " is too large to inspect safely"@)
        } else {
            let bytes = archive.subrange(
                region.offset as int,
                region.offset + region.size,
            );
            if sha1_digest(bytes) != region.expected_sha1 {
                Err(
                    PakErrorView::Sha1Mismatch {
                        region: region.name,
                        expected: hex_text(region.expected_sha1),
                        actual: hex_text(sha1_digest(bytes)),
                    },
                )
            } else {
                Ok(bytes)
            }
        },
    }
}

pub fn read_region_verified<'a>(archive: &'a [u8], region: &IndexRegion, limit: u64) -> (result:
    Result<&'a [u8]>)
    requires
        limit <= archive@.len(),
    ensures
        match (result, verified_region(archive@, region@, limit)) {
            (Ok(bytes), Ok(wanted)) => bytes@ == wanted,
            (Err(error), Err(wanted)) => error@ == wanted,
            _ => false,
        },
{
    validate_region(region.name, region.offset, region.size, limit)?;
    if region.size > MAX_INDEX_BYTES {
        return Err(
            PakError::UnsupportedLayout(cat2(region.name, " is too large to inspect safely")),
        );
    }
    let total: usize = archive.len();
    assert(region.offset + region.size <= total);
    let bytes = slice_subrange(
        archive,
        region.offset as usize,
        (region.offset + region.size) as usize,
    );
    let actual = sha1_of(bytes);
    if !same_bytes(actual.as_slice(), region.expected_sha1.as_slice()) {
        return Err(
            PakError::Sha1Mismatch {
                region: region.name.to_owned(),
                expected: hex_encode(region.expected_sha1.as_slice()),
                actual: hex_encode(actual.as_slice()),
            },
        );
    }
    Ok(bytes)
}

/// Two regions that share a byte.
pub open spec fn overlap_fault(first: IndexRegionView, second: IndexRegionView) -> Option<
    PakErrorView,
> {
    if first.offset < second.offset + second.size && second.offset < first.offset + first.size {
        Some(PakErrorView::Corrupt(first.name + " and "@ + second.name + " overlap"@))
    } else {
        None
    }
}

pub fn ensure_regions_disjoint(first: &IndexRegion, second: &IndexRegion) -> (result: Result<()>)
    requires
        first.offset + first.size <= u64::MAX,
        second.offset + second.size <= u64::MAX,
    ensures
        seen(result) == check(overlap_fault(first@, second@)),
{
    let first_end: u64 = first.offset + first.size;
    let second_end: u64 = second.offset + second.size;
    if first.offset < second_end && second.offset < first_end {
        return Err(
            PakError::Corrupt(cat4(first.name, " and ", second.name, " overlap")),
        );
    }
    Ok(())
}

} // verus!
