//! What can be wrong with a Pak.
use vstd::prelude::*;

use crate::text::{cat2, cat3, cat4, cat5, debug_text, dec, decimal, hex_numeral, hex_of, quoted};

verus! {

/// Why a Pak could not be read or written.
#[derive(Debug)]
#[allow(inconsistent_fields)]
pub enum PakError {
    /// The message of the failed file operation.
    Io(String),
    Repak(String),
    TooSmall { actual: u64 },
    InvalidMagic { actual: u32, expected: u32 },
    UnsupportedVersion { actual: u32 },
    EncryptedIndex,
    EncryptedEntry { path: String },
    UnsupportedCompression { path: String, method: String },
    DecompressionFailed { path: String, reason: String },
    OodleUnavailable { path: String, reason: String },
    InvalidMountPoint { mount_point: String, reason: String },
    InvalidPath { path: String, reason: String },
    DuplicatePath { first: String, second: String },
    UnsupportedLayout(String),
    Corrupt(String),
    Sha1Mismatch { region: String, expected: String, actual: String },
    MissingEntry(String),
    EntryTooLarge { path: String, size: u64, limit: u64 },
    EntryAllocationFailed { path: String, size: u64 },
    InsufficientCacheDisk { path: String, required: u64, available: u64 },
    /// The path of the file that is there.
    OutputExists(String),
    EmptyArchive,
    Cancelled,
}

/// A `PakError` with its texts as sequences of characters.
#[verifier::ext_equal]
#[allow(inconsistent_fields)]
pub enum PakErrorView {
    Io(Seq<char>),
    Repak(Seq<char>),
    TooSmall { actual: u64 },
    InvalidMagic { actual: u32, expected: u32 },
    UnsupportedVersion { actual: u32 },
    EncryptedIndex,
    EncryptedEntry { path: Seq<char> },
    UnsupportedCompression { path: Seq<char>, method: Seq<char> },
    DecompressionFailed { path: Seq<char>, reason: Seq<char> },
    OodleUnavailable { path: Seq<char>, reason: Seq<char> },
    InvalidMountPoint { mount_point: Seq<char>, reason: Seq<char> },
    InvalidPath { path: Seq<char>, reason: Seq<char> },
    DuplicatePath { first: Seq<char>, second: Seq<char> },
    UnsupportedLayout(Seq<char>),
    Corrupt(Seq<char>),
    Sha1Mismatch { region: Seq<char>, expected: Seq<char>, actual: Seq<char> },
    MissingEntry(Seq<char>),
    EntryTooLarge { path: Seq<char>, size: u64, limit: u64 },
    EntryAllocationFailed { path: Seq<char>, size: u64 },
    InsufficientCacheDisk { path: Seq<char>, required: u64, available: u64 },
    OutputExists(Seq<char>),
    EmptyArchive,
    Cancelled,
}

impl View for PakError {
    type V = PakErrorView;

    open spec fn view(&self) -> PakErrorView {
        match *self {
            PakError::Io(text) => PakErrorView::Io(text@),
            PakError::Repak(text) => PakErrorView::Repak(text@),
            PakError::TooSmall { actual } => PakErrorView::TooSmall { actual },
            PakError::InvalidMagic { actual, expected } => PakErrorView::InvalidMagic {
                actual,
                expected,
            },
            PakError::UnsupportedVersion { actual } => PakErrorView::UnsupportedVersion { actual },
            PakError::EncryptedIndex => PakErrorView::EncryptedIndex,
            PakError::EncryptedEntry { path } => PakErrorView::EncryptedEntry { path: path@ },
            PakError::UnsupportedCompression { path, method } => {
                PakErrorView::UnsupportedCompression { path: path@, method: method@ }
            },
            PakError::DecompressionFailed { path, reason } => PakErrorView::DecompressionFailed {
                path: path@,
                reason: reason@,
            },
            PakError::OodleUnavailable { path, reason } => PakErrorView::OodleUnavailable {
                path: path@,
                reason: reason@,
            },
            PakError::InvalidMountPoint { mount_point, reason } => {
                PakErrorView::InvalidMountPoint { mount_point: mount_point@, reason: reason@ }
            },
            PakError::InvalidPath { path, reason } => PakErrorView::InvalidPath {
                path: path@,
                reason: reason@,
            },
            PakError::DuplicatePath { first, second } => PakErrorView::DuplicatePath {
                first: first@,
                second: second@,
            },
            PakError::UnsupportedLayout(text) => PakErrorView::UnsupportedLayout(text@),
            PakError::Corrupt(text) => PakErrorView::Corrupt(text@),
            PakError::Sha1Mismatch { region, expected, actual } => PakErrorView::Sha1Mismatch {
                region: region@,
                expected: expected@,
                actual: actual@,
            },
            PakError::MissingEntry(text) => PakErrorView::MissingEntry(text@),
            PakError::EntryTooLarge { path, size, limit } => PakErrorView::EntryTooLarge {
                path: path@,
                size,
                limit,
            },
            PakError::EntryAllocationFailed { path, size } => PakErrorView::EntryAllocationFailed {
                path: path@,
                size,
            },
            PakError::InsufficientCacheDisk { path, required, available } => {
                PakErrorView::InsufficientCacheDisk { path: path@, required, available }
            },
            PakError::OutputExists(text) => PakErrorView::OutputExists(text@),
            PakError::EmptyArchive => PakErrorView::EmptyArchive,
            PakError::Cancelled => PakErrorView::Cancelled,
        }
    }
}

pub type Result<T> = std::result::Result<T, PakError>;

/// A result with its value and its error as they are seen in contracts.
pub open spec fn seen<T: View>(result: Result<T>) -> std::result::Result<T::V, PakErrorView> {
    match result {
        Ok(value) => Ok(value@),
        Err(error) => Err(error@),
    }
}

pub open spec fn corrupt<W>(text: Seq<char>) -> std::result::Result<W, PakErrorView> {
    Err(PakErrorView::Corrupt(text))
}

pub open spec fn unsupported<W>(text: Seq<char>) -> std::result::Result<W, PakErrorView> {
    Err(PakErrorView::UnsupportedLayout(text))
}

/// The sentence that is shown for an error.
pub open spec fn message_of(error: PakErrorView) -> Seq<char> {
    match error {
        PakErrorView::Io(text) => "could not read or write the file: "@ + text,
        PakErrorView::Repak(text) => "the Pak file structure could not be read: "@ + text,
        PakErrorView::TooSmall { actual } => "the file is too small to be a Pak ("@ + dec(
            actual as nat,
        ) + " bytes; minimum 44)"@,
        PakErrorView::InvalidMagic { actual, expected } => {
            "the Pak header is missing or invalid (0x"@ + hex_numeral(actual as nat, 8)
                + "; expected 0x"@ + hex_numeral(expected as nat, 8) + ")"@
        },
        PakErrorView::UnsupportedVersion { actual } => "Pak version "@ + dec(actual as nat)
            + " is not supported; this build can read v0-v11"@,
        PakErrorView::EncryptedIndex => "the Pak file list is encrypted and cannot be read"@,
        PakErrorView::EncryptedEntry { path } => "a file inside the Pak is encrypted: "@ + path,
        PakErrorView::UnsupportedCompression { path, method } => "the Pak file "@ + path
            + " uses unsupported compression "@ + method,
        PakErrorView::DecompressionFailed { path, reason } => "the compressed Pak file "@ + path
            + " could not be decoded: "@ + reason,
        PakErrorView::OodleUnavailable { path, reason } => {
            "Oodle support could not be prepared for "@ + path + ": "@ + reason
        },
        PakErrorView::InvalidMountPoint { mount_point, reason } => "invalid Pak root path "@
            + debug_text(mount_point) + ": "@ + reason,
        PakErrorView::InvalidPath { path, reason } => "invalid file path inside the Pak "@
            + debug_text(path) + ": "@ + reason,
        PakErrorView::DuplicatePath { first, second } => {
            "the same internal file path appears twice: "@ + debug_text(first) + " and "@
                + debug_text(second)
        },
        PakErrorView::UnsupportedLayout(text) => "the Pak file-list format is not supported: "@
            + text,
        PakErrorView::Corrupt(text) => "the Pak is damaged or contains conflicting records: "@
            + text,
        PakErrorView::Sha1Mismatch { region, expected, actual } => {
            "file integrity check failed for "@ + region + ": stored "@ + (expected + ", actual "@)
                + actual
        },
        PakErrorView::MissingEntry(text) => "the Pak does not contain this file: "@ + text,
        PakErrorView::EntryTooLarge { path, size, limit } => "the Pak file "@ + path
            + " is too large for this build ("@ + dec(size as nat) + (" bytes; limit "@ + dec(
            limit as nat,
        ) + ")"@),
        PakErrorView::EntryAllocationFailed { path, size } => {
            "not enough memory to inspect the Pak file "@ + path + " ("@ + dec(size as nat)
                + " bytes)"@
        },
        PakErrorView::InsufficientCacheDisk { path, required, available } => {
            "not enough temporary disk space to decode "@ + path + ": need about "@ + dec(
                required as nat,
            ) + (" bytes, available "@ + dec(available as nat) + " bytes"@)
        },
        PakErrorView::OutputExists(text) => "the output file already exists: "@ + text,
        PakErrorView::EmptyArchive => "the Pak contains no files"@,
        PakErrorView::Cancelled => "the operation was cancelled"@,
    }
}

impl PakError {
    /// The sentence that is shown for the error.
    pub fn message(&self) -> (result: String)
        ensures
            result@ == message_of(self@),
    {
        match self {
            PakError::Io(text) => cat2("could not read or write the file: ", text.as_str()),
            PakError::Repak(text) => cat2(
                "the Pak file structure could not be read: ",
                text.as_str(),
            ),
            PakError::TooSmall { actual } => cat3(
                "the file is too small to be a Pak (",
                decimal(*actual).as_str(),
                " bytes; minimum 44)",
            ),
            PakError::InvalidMagic { actual, expected } => cat5(
                "the Pak header is missing or invalid (0x",
                hex_of(*actual as u64, 8).as_str(),
                "; expected 0x",
                hex_of(*expected as u64, 8).as_str(),
                ")",
            ),
            PakError::UnsupportedVersion { actual } => cat3(
                "Pak version ",
                decimal(*actual as u64).as_str(),
                " is not supported; this build can read v0-v11",
            ),
            PakError::EncryptedIndex => "the Pak file list is encrypted and cannot be read".to_owned(),
            PakError::EncryptedEntry { path } => cat2(
                "a file inside the Pak is encrypted: ",
                path.as_str(),
            ),
            PakError::UnsupportedCompression { path, method } => cat4(
                "the Pak file ",
                path.as_str(),
                " uses unsupported compression ",
                method.as_str(),
            ),
            PakError::DecompressionFailed { path, reason } => cat4(
                "the compressed Pak file ",
                path.as_str(),
                " could not be decoded: ",
                reason.as_str(),
            ),
            PakError::OodleUnavailable { path, reason } => cat4(
                "Oodle support could not be prepared for ",
                path.as_str(),
                ": ",
                reason.as_str(),
            ),
            PakError::InvalidMountPoint { mount_point, reason } => cat4(
                "invalid Pak root path ",
                quoted(mount_point.as_str()).as_str(),
                ": ",
                reason.as_str(),
            ),
            PakError::InvalidPath { path, reason } => cat4(
                "invalid file path inside the Pak ",
                quoted(path.as_str()).as_str(),
                ": ",
                reason.as_str(),
            ),
            PakError::DuplicatePath { first, second } => cat4(
                "the same internal file path appears twice: ",
                quoted(first.as_str()).as_str(),
                " and ",
                quoted(second.as_str()).as_str(),
            ),
            PakError::UnsupportedLayout(text) => cat2(
                "the Pak file-list format is not supported: ",
                text.as_str(),
            ),
            PakError::Corrupt(text) => cat2(
                "the Pak is damaged or contains conflicting records: ",
                text.as_str(),
            ),
            PakError::Sha1Mismatch { region, expected, actual } => cat5(
                "file integrity check failed for ",
                region.as_str(),
                ": stored ",
                cat2(expected.as_str(), ", actual ").as_str(),
                actual.as_str(),
            ),
            PakError::MissingEntry(text) => cat2(
                "the Pak does not contain this file: ",
                text.as_str(),
            ),
            PakError::EntryTooLarge { path, size, limit } => cat5(
                "the Pak file ",
                path.as_str(),
                " is too large for this build (",
                decimal(*size).as_str(),
                cat3(" bytes; limit ", decimal(*limit).as_str(), ")").as_str(),
            ),
            PakError::EntryAllocationFailed { path, size } => cat5(
                "not enough memory to inspect the Pak file ",
                path.as_str(),
                " (",
                decimal(*size).as_str(),
                " bytes)",
            ),
            PakError::InsufficientCacheDisk { path, required, available } => cat5(
                "not enough temporary disk space to decode ",
                path.as_str(),
                ": need about ",
                decimal(*required).as_str(),
                cat3(" bytes, available ", decimal(*available).as_str(), " bytes").as_str(),
            ),
            PakError::OutputExists(text) => cat2(
                "the output file already exists: ",
                text.as_str(),
            ),
            PakError::EmptyArchive => "the Pak contains no files".to_owned(),
            PakError::Cancelled => "the operation was cancelled".to_owned(),
        }
    }
}

} // verus!
