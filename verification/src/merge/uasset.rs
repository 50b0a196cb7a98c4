//! The `.uasset` header of a database: where it states the size of its `.uexp`.
use vstd::prelude::*;
use vstd::slice::{slice_subrange, slice_to_vec};
use vstd::utf8::{decode_utf8, valid_utf8};

use super::error::{
    message_of, mismatch, seen, unverified, MergeError, MergeErrorView, Outcome, Result,
};
use super::ids::{eq_ignore_ascii_case, folded, sort_key};
use crate::pak::open::package_tag;
use crate::pak::reader::{i32_of, le16_units, le32, le64, signed32, u16_le, u32_le, u64_le};
use crate::text::{
    cat2, cat3, cat4, chars_of, dec, decimal, decimal_usize, decode_utf16, hex_plain, hexadecimal,
    same_but_case, same_text, starts_with, text_of, text_skip, text_starts_with, texts, texts_push, utf16_text,
    utf8_text,
};

verus! {

/// The size of the tag that ends a `.uexp`.
pub const PACKAGE_TAG_SIZE: usize = 4;

/// The size of one import record.
pub const IMPORT_ENTRY_SIZE: usize = 32;

pub const MAX_NAME_COUNT: usize = 100_000;

pub const MAX_IMPORT_COUNT: usize = 100_000;

/// The package flags of a cooked database.
pub const PACKAGE_FLAGS: u32 = 0x8000_2200;

/// The four-byte number at an offset, where the bytes reach that far.
pub open spec fn u32_in(bytes: Seq<u8>, offset: int) -> Option<int> {
    if offset + 4 <= bytes.len() {
        Some(le32(bytes, offset))
    } else {
        None
    }
}

/// The signed four-byte number at an offset.
pub open spec fn i32_in(bytes: Seq<u8>, offset: int) -> Option<int> {
    match u32_in(bytes, offset) {
        Some(value) => Some(signed32(value)),
        None => None,
    }
}

/// The eight-byte number at an offset.
pub open spec fn u64_in(bytes: Seq<u8>, offset: int) -> Option<int> {
    if offset + 8 <= bytes.len() {
        Some(le64(bytes, offset))
    } else {
        None
    }
}

pub fn read_u32_le_at(bytes: &[u8], offset: usize) -> (result: Option<u32>)
    ensures
        match (result, u32_in(bytes@, offset as int)) {
            (Some(value), Some(wanted)) => value == wanted,
            (None, None) => true,
            _ => false,
        },
{
    if bytes.len() >= 4 && offset <= bytes.len() - 4 {
        Some(u32_le(bytes, offset))
    } else {
        None
    }
}

pub fn read_i32_le_at(bytes: &[u8], offset: usize) -> (result: Option<i32>)
    ensures
        match (result, i32_in(bytes@, offset as int)) {
            (Some(value), Some(wanted)) => value == wanted,
            (None, None) => true,
            _ => false,
        },
{
    match read_u32_le_at(bytes, offset) {
        Some(value) => Some(i32_of(value)),
        None => None,
    }
}

pub fn read_u64_le_at(bytes: &[u8], offset: usize) -> (result: Option<u64>)
    ensures
        match (result, u64_in(bytes@, offset as int)) {
            (Some(value), Some(wanted)) => value == wanted,
            (None, None) => true,
            _ => false,
        },
{
    if bytes.len() >= 8 && offset <= bytes.len() - 8 {
        Some(u64_le(bytes, offset))
    } else {
        None
    }
}

fn mismatched(text: &str) -> (error: MergeError)
    ensures
        error@ == MergeErrorView::DatabaseStructureMismatch(text@),
{
    MergeError::DatabaseStructureMismatch(text.to_owned())
}

/// A number that must be there and must not exceed a bound.
pub open spec fn bounded(value: Option<int>, field: Seq<char>, bound: int) -> Outcome<int> {
    match value {
        None => mismatch(field + " is out of range"@),
        Some(value) => if value > bound {
            mismatch(field + " exceeds the supported bound "@ + dec(bound as nat))
        } else {
            Ok(value)
        },
    }
}

pub fn checked_u32_usize(value: Option<u32>, field: &str, upper_bound: usize) -> (result: Result<
    usize,
>)
    ensures
        match (result, bounded(
            (match value {
                Some(value) => Some(value as int),
                None => None,
            }),
            field@,
            upper_bound as int,
        )) {
            (Ok(value), Ok(wanted)) => value == wanted,
            (Err(error), Err(wanted)) => error@ == wanted,
            _ => false,
        },
{
    match value {
        None => Err(mismatched(cat2(field, " is out of range").as_str())),
        Some(value) => if value as u64 > upper_bound as u64 {
            Err(
                mismatched(
                    cat3(
                        field,
                        " exceeds the supported bound ",
                        decimal_usize(upper_bound).as_str(),
                    ).as_str(),
                ),
            )
        } else {
            Ok(value as usize)
        },
    }
}

/// A text with a signed length before it, and where it ends.
pub open spec fn fstring_in(bytes: Seq<u8>, offset: int, field: Seq<char>) -> Outcome<
    (Seq<char>, int),
> {
    match i32_in(bytes, offset) {
        None => mismatch(field + " FString length is out of range"@),
        Some(length) => {
            let body = offset + 4;
            if length == 0 {
                mismatch(field + " FString is empty"@)
            } else if length > 0 {
                let end = body + length;
                if end > usize::MAX {
                    mismatch(field + " FString range overflow"@)
                } else if end > bytes.len() {
                    mismatch(field + " FString is truncated"@)
                } else if bytes[end - 1] != 0 {
                    mismatch(field + " FString is not NUL-terminated"@)
                } else if !valid_utf8(bytes.subrange(body, end - 1)) {
                    mismatch(field + " FString is not valid UTF-8"@)
                } else {
                    Ok((decode_utf8(bytes.subrange(body, end - 1)), end))
                }
            } else {
                let units = -length;
                let end = body + 2 * units;
                if units > i32::MAX {
                    mismatch(field + " UTF-16 FString is too large"@)
                } else if 2 * units > usize::MAX {
                    mismatch(field + " UTF-16 FString size overflow"@)
                } else if end > usize::MAX {
                    mismatch(field + " UTF-16 FString range overflow"@)
                } else if end > bytes.len() {
                    mismatch(field + " UTF-16 FString is truncated"@)
                } else if le16_units(bytes.subrange(body, end)).last() != 0 {
                    mismatch(field + " UTF-16 FString is not NUL-terminated"@)
                } else {
                    match decode_utf16(le16_units(bytes.subrange(body, end)).drop_last()) {
                        Some(text) => Ok((text, end)),
                        None => mismatch(field + " FString contains invalid UTF-16"@),
                    }
                }
            }
        },
    }
}

/// The 16-bit units of a run of bytes.
fn wide_units(bytes: &[u8]) -> (result: Vec<u16>)
    ensures
        result@ == le16_units(bytes@),
{
    let mut result: Vec<u16> = Vec::new();
    let mut at: usize = 0;
    let count: usize = bytes.len() / 2;
    while at < count
        invariant
            at <= count,
            count == bytes@.len() / 2,
            bytes@.len() <= usize::MAX,
            result@ == le16_units(bytes@).take(at as int),
        decreases count - at,
    {
        result.push(u16_le(bytes, 2 * at));
        proof {
            assert(le16_units(bytes@).take(at as int + 1) =~= le16_units(bytes@).take(
                at as int,
            ).push(le16_units(bytes@)[at as int]));
        }
        at += 1;
    }
    assert(le16_units(bytes@).take(at as int) =~= le16_units(bytes@));
    result
}

pub fn parse_unreal_fstring(bytes: &[u8], offset: usize, field: &str) -> (result: Result<
    (String, usize),
>)
    ensures
        match (result, fstring_in(bytes@, offset as int, field@)) {
            (Ok(found), Ok(wanted)) => found.0@ == wanted.0 && found.1 == wanted.1 && found.1
                <= bytes@.len(),
            (Err(error), Err(wanted)) => error@ == wanted,
            _ => false,
        },
{
    let total: usize = bytes.len();
    let length: i32 = match read_i32_le_at(bytes, offset) {
        Some(length) => length,
        None => {
            return Err(mismatched(cat2(field, " FString length is out of range").as_str()));
        },
    };
    if length == 0 {
        return Err(mismatched(cat2(field, " FString is empty").as_str()));
    }
    let body: usize = offset + 4;
    if length > 0 {
        let byte_len: usize = length as usize;
        let end: usize = match body.checked_add(byte_len) {
            Some(end) => end,
            None => {
                return Err(mismatched(cat2(field, " FString range overflow").as_str()));
            },
        };
        if end > total {
            return Err(mismatched(cat2(field, " FString is truncated").as_str()));
        }
        if bytes[end - 1] != 0 {
            return Err(mismatched(cat2(field, " FString is not NUL-terminated").as_str()));
        }
        let text = slice_to_vec(slice_subrange(bytes, body, end - 1));
        match utf8_text(text) {
            Some(text) => Ok((text, end)),
            None => Err(mismatched(cat2(field, " FString is not valid UTF-8").as_str())),
        }
    } else {
        let magnitude: i64 = -(length as i64);
        if magnitude > i32::MAX as i64 {
            return Err(mismatched(cat2(field, " UTF-16 FString is too large").as_str()));
        }
        let units: usize = magnitude as usize;
        let byte_len: usize = match units.checked_mul(2) {
            Some(byte_len) => byte_len,
            None => {
                return Err(mismatched(cat2(field, " UTF-16 FString size overflow").as_str()));
            },
        };
        let end: usize = match body.checked_add(byte_len) {
            Some(end) => end,
            None => {
                return Err(mismatched(cat2(field, " UTF-16 FString range overflow").as_str()));
            },
        };
        if end > total {
            return Err(mismatched(cat2(field, " UTF-16 FString is truncated").as_str()));
        }
        let mut wide = wide_units(slice_subrange(bytes, body, end));
        let ghost all = wide@;
        proof {
            assert(bytes@.subrange(body as int, end as int).len() == 2 * units);
            assert(all.len() == units);
        }
        match wide.pop() {
            Some(last) => {
                if last != 0 {
                    return Err(
                        mismatched(cat2(field, " UTF-16 FString is not NUL-terminated").as_str()),
                    );
                }
            },
            None => {},
        }
        assert(wide@ =~= all.drop_last());
        match utf16_text(&wide) {
            Some(text) => Ok((text, end)),
            None => Err(mismatched(cat2(field, " FString contains invalid UTF-16").as_str())),
        }
    }
}

/// The name table: each name is followed by four bytes of hash.
pub open spec fn names_from(bytes: Seq<u8>, cursor: int, done: Seq<Seq<char>>, count: int) -> Outcome<
    Seq<Seq<char>>,
>
    decreases count - done.len(),
{
    if done.len() >= count {
        Ok(done)
    } else {
        match fstring_in(bytes, cursor, "name-table item "@ + dec(done.len())) {
            Err(error) => Err(error),
            Ok((name, end)) => if end + 4 > usize::MAX {
                mismatch(".uasset name-table range overflow"@)
            } else if end + 4 > bytes.len() {
                mismatch(".uasset name-table hash is truncated"@)
            } else {
                names_from(bytes, end + 4, done.push(name), count)
            },
        }
    }
}

pub fn parse_uasset_names(bytes: &[u8], offset: usize, count: usize) -> (result: Result<Vec<String>>)
    ensures
        match (result, names_from(bytes@, offset as int, Seq::empty(), count as int)) {
            (Ok(names), Ok(wanted)) => texts(names@) == wanted,
            (Err(error), Err(wanted)) => error@ == wanted,
            _ => false,
        },
{
    let mut names: Vec<String> = Vec::new();
    let mut cursor: usize = offset;
    assert(texts(names@) =~= Seq::<Seq<char>>::empty());
    while names.len() < count
        invariant
            names@.len() <= count,
            names_from(bytes@, offset as int, Seq::empty(), count as int) == names_from(
                bytes@,
                cursor as int,
                texts(names@),
                count as int,
            ),
        decreases count - names@.len(),
    {
        let field = cat2("name-table item ", decimal_usize(names.len()).as_str());
        let (name, end) = match parse_unreal_fstring(bytes, cursor, field.as_str()) {
            Ok(found) => found,
            Err(error) => {
                return Err(error);
            },
        };
        match end.checked_add(4) {
            None => {
                return Err(mismatched(".uasset name-table range overflow"));
            },
            Some(next) => {
                if next > bytes.len() {
                    return Err(mismatched(".uasset name-table hash is truncated"));
                }
                cursor = next;
            },
        }
        proof {
            texts_push(names@, name);
        }
        names.push(name);
    }
    Ok(names)
}

/// The name that an index and a zero instance number stand for.
pub open spec fn fname_in(bytes: Seq<u8>, offset: int, names: Seq<Seq<char>>, field: Seq<char>) -> Outcome<
    Seq<char>,
> {
    match bounded(u32_in(bytes, offset), field, names.len() as int) {
        Err(error) => Err(error),
        Ok(index) => if u32_in(bytes, offset + 4) != Some(0int) {
            mismatch(field + " has a nonzero FName instance number"@)
        } else if index >= names.len() {
            mismatch(field + " index is outside the name table"@)
        } else {
            Ok(names[index])
        },
    }
}

pub fn uasset_fname(bytes: &[u8], offset: usize, names: &Vec<String>, field: &str) -> (result: Result<
    String,
>)
    requires
        offset + 4 <= usize::MAX,
    ensures
        seen(result) == fname_in(bytes@, offset as int, texts(names@), field@),
{
    let index: usize = match checked_u32_usize(read_u32_le_at(bytes, offset), field, names.len()) {
        Ok(index) => index,
        Err(error) => {
            return Err(error);
        },
    };
    let instance = read_u32_le_at(bytes, offset + 4);
    match instance {
        Some(value) => {
            if value != 0 {
                return Err(
                    mismatched(cat2(field, " has a nonzero FName instance number").as_str()),
                );
            }
        },
        None => {
            return Err(mismatched(cat2(field, " has a nonzero FName instance number").as_str()));
        },
    }
    if index >= names.len() {
        return Err(mismatched(cat2(field, " index is outside the name table").as_str()));
    }
    Ok(names[index].clone())
}

/// The package path and where it ends, once the fixed head is as it must be.
pub open spec fn shell_head(bytes: Seq<u8>) -> Outcome<(Seq<char>, int)> {
    if bytes.len() < 4 || bytes.take(4) != package_tag() {
        mismatch(".uasset does not carry the expected C1 83 2A 9E package tag"@)
    } else if i32_in(bytes, 4) != Some(-8int) {
        mismatch(".uasset LegacyVersion is not the expected value -8"@)
    } else if bytes.len() < 0x1C || exists|i: int| 8 <= i < 0x1C && bytes[i] != 0 {
        mismatch(
            ".uasset version fields do not match the supported unversioned OT0 package layout"@,
        )
    } else if u32_in(bytes, 0x1C) != Some(bytes.len() as int) {
        mismatch(".uasset TotalHeaderSize does not equal its exact byte length"@)
    } else {
        match fstring_in(bytes, 0x20, "package path"@) {
            Err(error) => Err(error),
            Ok((path, end)) => if path.len() == 0 || !starts_with(path, "/Game/"@) {
                mismatch(".uasset package path is not a /Game/... path"@)
            } else {
                Ok((path, end))
            },
        }
    }
}

fn read_shell_head(uasset: &[u8]) -> (result: Result<(String, usize)>)
    ensures
        match (result, shell_head(uasset@)) {
            (Ok(found), Ok(wanted)) => found.0@ == wanted.0 && found.1 == wanted.1 && found.1
                <= uasset@.len(),
            (Err(error), Err(wanted)) => error@ == wanted,
            _ => false,
        },
{
    let total: usize = uasset.len();
    if total < 4 || uasset[0] != 0xC1 || uasset[1] != 0x83 || uasset[2] != 0x2A || uasset[3]
        != 0x9E {
        proof {
            if total >= 4 && uasset@.take(4) == package_tag() {
                assert(uasset@.take(4)[0] == 0xC1u8);
                assert(uasset@.take(4)[1] == 0x83u8);
                assert(uasset@.take(4)[2] == 0x2Au8);
                assert(uasset@.take(4)[3] == 0x9Eu8);
            }
        }
        return Err(mismatched(".uasset does not carry the expected C1 83 2A 9E package tag"));
    }
    assert(uasset@.take(4) =~= package_tag());
    match read_i32_le_at(uasset, 4) {
        Some(version) => {
            if version != -8 {
                return Err(mismatched(".uasset LegacyVersion is not the expected value -8"));
            }
        },
        None => {
            return Err(mismatched(".uasset LegacyVersion is not the expected value -8"));
        },
    }
    let mut at: usize = 8;
    while at < 0x1C
        invariant
            8 <= at <= 0x1C,
            total == uasset@.len(),
            forall|i: int| 8 <= i < at ==> i < total && uasset@[i] == 0,
            uasset@.len() >= 4,
            uasset@.take(4) == package_tag(),
            i32_in(uasset@, 4) == Some(-8int),
        decreases 0x1C - at,
    {
        if at >= total || uasset[at] != 0 {
            return Err(
                mismatched(
                    ".uasset version fields do not match the supported unversioned OT0 package layout",
                ),
            );
        }
        at += 1;
    }
    assert(uasset@[0x1B] == 0);
    match read_u32_le_at(uasset, 0x1C) {
        Some(stated) => {
            if stated as u64 != total as u64 {
                return Err(
                    mismatched(".uasset TotalHeaderSize does not equal its exact byte length"),
                );
            }
        },
        None => {
            return Err(mismatched(".uasset TotalHeaderSize does not equal its exact byte length"));
        },
    }
    let (path, end) = match parse_unreal_fstring(uasset, 0x20, "package path") {
        Ok(found) => found,
        Err(error) => {
            return Err(error);
        },
    };
    proof {
        reveal_strlit("/Game/");
    }
    if !text_starts_with(path.as_str(), "/Game/") {
        return Err(mismatched(".uasset package path is not a /Game/... path"));
    }
    Ok((path, end))
}

/// Where the tables of a header stand.
pub struct ShellTables {
    pub name_count: usize,
    pub name_offset: usize,
    pub export_offset: usize,
    pub import_count: usize,
    pub import_offset: usize,
    pub bulk_data_start_offset: usize,
}

#[verifier::ext_equal]
pub struct ShellTablesView {
    pub name_count: int,
    pub name_offset: int,
    pub export_offset: int,
    pub import_count: int,
    pub import_offset: int,
    pub bulk_data_start_offset: int,
}

impl View for ShellTables {
    type V = ShellTablesView;

    open spec fn view(&self) -> ShellTablesView {
        ShellTablesView {
            name_count: self.name_count as int,
            name_offset: self.name_offset as int,
            export_offset: self.export_offset as int,
            import_count: self.import_count as int,
            import_offset: self.import_offset as int,
            bulk_data_start_offset: self.bulk_data_start_offset as int,
        }
    }
}

/// The position of a summary field that follows the package path.
pub open spec fn summary_at(folder_end: int, relative: int) -> Outcome<int> {
    if folder_end + relative > usize::MAX {
        mismatch(".uasset summary offset overflow"@)
    } else {
        Ok(folder_end + relative)
    }
}

fn field_offset(folder_end: usize, relative: usize) -> (result: Result<usize>)
    ensures
        match (result, summary_at(folder_end as int, relative as int)) {
            (Ok(at), Ok(wanted)) => at == wanted,
            (Err(error), Err(wanted)) => error@ == wanted,
            _ => false,
        },
{
    match folder_end.checked_add(relative) {
        Some(at) => Ok(at),
        None => Err(mismatched(".uasset summary offset overflow")),
    }
}

/// A bounded number among the summary fields.
pub open spec fn summary_number(
    bytes: Seq<u8>,
    folder_end: int,
    relative: int,
    field: Seq<char>,
    bound: int,
) -> Outcome<int> {
    match summary_at(folder_end, relative) {
        Err(error) => Err(error),
        Ok(at) => bounded(u32_in(bytes, at), field, bound),
    }
}

fn read_summary_number(
    uasset: &[u8],
    folder_end: usize,
    relative: usize,
    field: &str,
    bound: usize,
) -> (result: Result<usize>)
    ensures
        match (
            result,
            summary_number(uasset@, folder_end as int, relative as int, field@, bound as int),
        ) {
            (Ok(value), Ok(wanted)) => value == wanted && value <= bound,
            (Err(error), Err(wanted)) => error@ == wanted,
            _ => false,
        },
{
    match field_offset(folder_end, relative) {
        Ok(at) => checked_u32_usize(read_u32_le_at(uasset, at), field, bound),
        Err(error) => Err(error),
    }
}

/// The tables that the summary states.
pub open spec fn shell_tables(bytes: Seq<u8>, folder_end: int) -> Outcome<ShellTablesView> {
    let total = bytes.len() as int;
    if u32_in(bytes, folder_end) != Some(PACKAGE_FLAGS as int) {
        mismatch(".uasset package flags do not match the supported OT0 BinaryAsset layout"@)
    } else {
        match summary_number(bytes, folder_end, 4, ".uasset name count"@, MAX_NAME_COUNT as int) {
            Err(error) => Err(error),
            Ok(name_count) => match summary_number(
                bytes,
                folder_end,
                8,
                ".uasset name-table offset"@,
                total,
            ) {
                Err(error) => Err(error),
                Ok(name_offset) => match summary_at(folder_end, 0x1C) {
                    Err(error) => Err(error),
                    Ok(count_at) => match u32_in(bytes, count_at) {
                        None => mismatch(".uasset export count is out of range"@),
                        Some(export_count) => if export_count != 1 {
                            mismatch(
                                ".uasset has "@ + dec(export_count as nat)
                                    + " exports; detailed database merging requires exactly one"@,
                            )
                        } else {
                            shell_exports(bytes, folder_end, name_count, name_offset)
                        },
                    },
                },
            },
        }
    }
}

/// The rest of the tables, once the header has exactly one export.
pub open spec fn shell_exports(bytes: Seq<u8>, folder_end: int, name_count: int, name_offset: int) -> Outcome<
    ShellTablesView,
> {
    let total = bytes.len() as int;
    match summary_number(bytes, folder_end, 0x20, ".uasset export-table offset"@, total) {
        Err(error) => Err(error),
        Ok(export_offset) => match summary_number(
            bytes,
            folder_end,
            0x24,
            ".uasset import count"@,
            MAX_IMPORT_COUNT as int,
        ) {
            Err(error) => Err(error),
            Ok(import_count) => match summary_number(
                bytes,
                folder_end,
                0x28,
                ".uasset import-table offset"@,
                total,
            ) {
                Err(error) => Err(error),
                Ok(import_offset) => match summary_at(folder_end, 0x8C) {
                    Err(error) => Err(error),
                    Ok(bulk) => if u64_in(bytes, bulk) is None {
                        mismatch(".uasset BulkDataStartOffset is outside the package summary"@)
                    } else {
                        Ok(
                            ShellTablesView {
                                name_count,
                                name_offset,
                                export_offset,
                                import_count,
                                import_offset,
                                bulk_data_start_offset: bulk,
                            },
                        )
                    },
                },
            },
        },
    }
}

fn read_shell_tables(uasset: &[u8], folder_end: usize) -> (result: Result<ShellTables>)
    ensures
        seen(result) == shell_tables(uasset@, folder_end as int),
        result matches Ok(tables) ==> tables.import_count <= MAX_IMPORT_COUNT && tables.export_offset
            <= uasset@.len() && tables.import_offset <= uasset@.len(),
{
    let total: usize = uasset.len();
    match read_u32_le_at(uasset, folder_end) {
        Some(flags) => {
            if flags != PACKAGE_FLAGS {
                return Err(
                    mismatched(
                        ".uasset package flags do not match the supported OT0 BinaryAsset layout",
                    ),
                );
            }
        },
        None => {
            return Err(
                mismatched(
                    ".uasset package flags do not match the supported OT0 BinaryAsset layout",
                ),
            );
        },
    }
    let name_count: usize = read_summary_number(
        uasset,
        folder_end,
        4,
        ".uasset name count",
        MAX_NAME_COUNT,
    )?;
    let name_offset: usize = read_summary_number(
        uasset,
        folder_end,
        8,
        ".uasset name-table offset",
        total,
    )?;
    let count_at: usize = field_offset(folder_end, 0x1C)?;
    match read_u32_le_at(uasset, count_at) {
        None => {
            return Err(mismatched(".uasset export count is out of range"));
        },
        Some(export_count) => {
            if export_count != 1 {
                return Err(
                    mismatched(
                        cat3(
                            ".uasset has ",
                            decimal(export_count as u64).as_str(),
                            " exports; detailed database merging requires exactly one",
                        ).as_str(),
                    ),
                );
            }
        },
    }
    let export_offset: usize = read_summary_number(
        uasset,
        folder_end,
        0x20,
        ".uasset export-table offset",
        total,
    )?;
    let import_count: usize = read_summary_number(
        uasset,
        folder_end,
        0x24,
        ".uasset import count",
        MAX_IMPORT_COUNT,
    )?;
    let import_offset: usize = read_summary_number(
        uasset,
        folder_end,
        0x28,
        ".uasset import-table offset",
        total,
    )?;
    let bulk: usize = field_offset(folder_end, 0x8C)?;
    if read_u64_le_at(uasset, bulk).is_none() {
        return Err(mismatched(".uasset BulkDataStartOffset is outside the package summary"));
    }
    Ok(
        ShellTables {
            name_count,
            name_offset,
            export_offset,
            import_count,
            import_offset,
            bulk_data_start_offset: bulk,
        },
    )
}

/// The text behind the last `/`.
pub open spec fn last_part(path: Seq<char>) -> Seq<char>
    decreases path.len(),
{
    if path.len() == 0 || path.last() == '/' {
        Seq::empty()
    } else {
        last_part(path.drop_last()).push(path.last())
    }
}

/// The last part is what stands behind the last separator.
proof fn last_part_is(path: Seq<char>, at: int)
    requires
        0 <= at <= path.len(),
        at > 0 ==> path[at - 1] == '/',
        forall|i: int| at <= i < path.len() ==> path[i] != '/',
    ensures
        last_part(path) == path.skip(at),
    decreases path.len(),
{
    if at < path.len() {
        assert forall|i: int| at <= i < path.drop_last().len() implies path.drop_last()[i] != '/' by {
            assert(path.drop_last()[i] == path[i]);
        }
        last_part_is(path.drop_last(), at);
        assert(path.skip(at) =~= path.drop_last().skip(at).push(path.last()));
    } else {
        assert(path.skip(at) =~= Seq::<char>::empty());
    }
}

/// The text behind the last `/`.
pub fn last_component(path: &str) -> (result: String)
    ensures
        result@ == last_part(path@),
{
    let chars = chars_of(path);
    let mut at: usize = chars.len();
    while at > 0 && chars[at - 1] != '/'
        invariant
            at <= chars@.len(),
            chars@ == path@,
            forall|i: int| at <= i < chars@.len() ==> chars@[i] != '/',
        decreases at,
    {
        at -= 1;
    }
    proof {
        last_part_is(path@, at as int);
    }
    let result = text_of(&chars, at, chars.len());
    assert(path@.subrange(at as int, path@.len() as int) =~= path@.skip(at as int));
    result
}

/// The imports and the export lie inside the header.
pub open spec fn shell_extent(bytes: Seq<u8>, tables: ShellTablesView) -> Outcome<()> {
    let import_end = tables.import_offset + tables.import_count * IMPORT_ENTRY_SIZE;
    if import_end > usize::MAX {
        mismatch(".uasset import-table range overflow"@)
    } else if import_end > bytes.len() {
        mismatch(".uasset import table extends beyond the header"@)
    } else if tables.export_offset + 0x2C > usize::MAX {
        mismatch(".uasset export range overflow"@)
    } else if tables.export_offset + 0x2C > bytes.len() {
        mismatch(".uasset export table extends beyond the header"@)
    } else {
        Ok(())
    }
}

fn check_shell_extent(uasset: &[u8], tables: &ShellTables) -> (result: Result<()>)
    requires
        tables.import_count <= MAX_IMPORT_COUNT,
    ensures
        seen(result) == shell_extent(uasset@, tables@),
        result is Ok ==> tables.import_offset + tables.import_count * IMPORT_ENTRY_SIZE
            <= uasset@.len() <= usize::MAX && tables.export_offset + 0x2C <= uasset@.len(),
{
    let import_bytes: usize = tables.import_count * IMPORT_ENTRY_SIZE;
    let import_end: usize = match tables.import_offset.checked_add(import_bytes) {
        Some(end) => end,
        None => {
            return Err(mismatched(".uasset import-table range overflow"));
        },
    };
    if import_end > uasset.len() {
        return Err(mismatched(".uasset import table extends beyond the header"));
    }
    let export_end: usize = match tables.export_offset.checked_add(0x2C) {
        Some(end) => end,
        None => {
            return Err(mismatched(".uasset export range overflow"));
        },
    };
    if export_end > uasset.len() {
        return Err(mismatched(".uasset export table extends beyond the header"));
    }
    Ok(())
}

/// The name of the one export, which must be a database of the package.
pub open spec fn shell_object(
    bytes: Seq<u8>,
    tables: ShellTablesView,
    names: Seq<Seq<char>>,
    package_path: Seq<char>,
) -> Outcome<Seq<char>> {
    let class_index = signed32(le32(bytes, tables.export_offset));
    let import_index = -class_index - 1;
    if import_index < 0 || import_index >= tables.import_count {
        mismatch(".uasset export class does not resolve to an import"@)
    } else {
        match fname_in(
            bytes,
            tables.import_offset + import_index * IMPORT_ENTRY_SIZE + 20,
            names,
            "export class name"@,
        ) {
            Err(error) => Err(error),
            Ok(class) => if !same_but_case(class, "BinaryAsset"@) {
                mismatch(".uasset export class is "@ + class + ", not BinaryAsset"@)
            } else {
                match fname_in(bytes, tables.export_offset + 0x10, names, "export object name"@) {
                    Err(error) => Err(error),
                    Ok(object) => if !same_but_case(object, last_part(package_path)) {
                        mismatch(
                            ".uasset export object "@ + object + " does not match package "@
                                + last_part(package_path),
                        )
                    } else {
                        Ok(object)
                    },
                }
            },
        }
    }
}

fn read_shell_object(
    uasset: &[u8],
    tables: &ShellTables,
    names: &Vec<String>,
    package_path: &str,
) -> (result: Result<String>)
    requires
        tables.import_count <= MAX_IMPORT_COUNT,
        tables.import_offset + tables.import_count * IMPORT_ENTRY_SIZE <= uasset@.len()
            <= usize::MAX,
        tables.export_offset + 0x2C <= uasset@.len(),
    ensures
        seen(result) == shell_object(uasset@, tables@, texts(names@), package_path@),
{
    let class_index: i64 = i32_of(u32_le(uasset, tables.export_offset)) as i64;
    let signed_index: i64 = -class_index - 1;
    if signed_index < 0 || signed_index >= tables.import_count as i64 {
        return Err(mismatched(".uasset export class does not resolve to an import"));
    }
    let import_index: usize = signed_index as usize;
    assert(import_index * IMPORT_ENTRY_SIZE + IMPORT_ENTRY_SIZE <= tables.import_count
        * IMPORT_ENTRY_SIZE) by (nonlinear_arith)
        requires
            import_index + 1 <= tables.import_count,
            IMPORT_ENTRY_SIZE == 32,
    ;
    let class = match uasset_fname(
        uasset,
        tables.import_offset + import_index * IMPORT_ENTRY_SIZE + 20,
        names,
        "export class name",
    ) {
        Ok(class) => class,
        Err(error) => {
            return Err(error);
        },
    };
    if !eq_ignore_ascii_case(class.as_str(), "BinaryAsset") {
        return Err(
            mismatched(
                cat3(".uasset export class is ", class.as_str(), ", not BinaryAsset").as_str(),
            ),
        );
    }
    let object = match uasset_fname(
        uasset,
        tables.export_offset + 0x10,
        names,
        "export object name",
    ) {
        Ok(object) => object,
        Err(error) => {
            return Err(error);
        },
    };
    let wanted = last_component(package_path);
    if !eq_ignore_ascii_case(object.as_str(), wanted.as_str()) {
        return Err(
            mismatched(
                cat4(
                    ".uasset export object ",
                    object.as_str(),
                    " does not match package ",
                    wanted.as_str(),
                ).as_str(),
            ),
        );
    }
    Ok(object)
}

/// The key that a Pak path must have inside the package.
pub open spec fn inner_key(expected: Seq<char>) -> Seq<char> {
    let key = folded(expected);
    if starts_with(key, "octopath_traveler0/content/"@) {
        key.skip("octopath_traveler0/content/"@.len() as int)
    } else {
        key
    }
}

/// The package stands under the path that the Pak gives it.
pub open spec fn shell_place(package_path: Seq<char>, expected: Option<Seq<char>>) -> Outcome<()> {
    match expected {
        None => Ok(()),
        Some(expected) => if folded(package_path.skip("/Game/"@.len() as int)) != inner_key(
            expected,
        ) {
            mismatch(
                ".uasset package path "@ + package_path + " does not match Pak path "@ + inner_key(
                    expected,
                ),
            )
        } else {
            Ok(())
        },
    }
}

fn check_shell_place(package_path: &str, expected: Option<&str>) -> (result: Result<()>)
    requires
        starts_with(package_path@, "/Game/"@),
    ensures
        seen(result) == shell_place(
            package_path@,
            (match expected {
                Some(expected) => Some(expected@),
                None => None,
            }),
        ),
{
    match expected {
        None => Ok(()),
        Some(expected) => {
            proof {
                reveal_strlit("/Game/");
                reveal_strlit("octopath_traveler0/content/");
            }
            let internal = text_skip(package_path, 6);
            let mut key = sort_key(expected);
            if text_starts_with(key.as_str(), "octopath_traveler0/content/") {
                key = text_skip(key.as_str(), 27);
            }
            if !same_text(sort_key(internal.as_str()).as_str(), key.as_str()) {
                return Err(
                    mismatched(
                        cat4(
                            ".uasset package path ",
                            package_path,
                            " does not match Pak path ",
                            key.as_str(),
                        ).as_str(),
                    ),
                );
            }
            Ok(())
        },
    }
}

/// The export states the sizes that the pair of files has.
pub open spec fn shell_sizes(bytes: Seq<u8>, export_offset: int, uexp_size: int) -> Outcome<()> {
    if uexp_size < PACKAGE_TAG_SIZE {
        mismatch(".uexp is shorter than its package tag"@)
    } else if u64_in(bytes, export_offset + 0x1C) != Some(uexp_size - PACKAGE_TAG_SIZE) {
        mismatch(
            ".uasset export SerialSize does not match the paired .uexp ("@ + dec(
                (uexp_size - PACKAGE_TAG_SIZE) as nat,
            ) + " bytes)"@,
        )
    } else if u64_in(bytes, export_offset + 0x24) != Some(bytes.len() as int) {
        mismatch(
            ".uasset export SerialOffset at 0x"@ + hex_plain((export_offset + 0x24) as nat)
                + " does not equal the .uasset length"@,
        )
    } else {
        Ok(())
    }
}

fn check_shell_sizes(uasset: &[u8], export_offset: usize, uexp_size: usize) -> (result: Result<()>)
    requires
        export_offset + 0x2C <= uasset@.len(),
    ensures
        seen(result) == shell_sizes(uasset@, export_offset as int, uexp_size as int),
{
    let total: usize = uasset.len();
    if uexp_size < PACKAGE_TAG_SIZE {
        return Err(mismatched(".uexp is shorter than its package tag"));
    }
    let serial: u64 = (uexp_size - PACKAGE_TAG_SIZE) as u64;
    if u64_le(uasset, export_offset + 0x1C) != serial {
        return Err(
            mismatched(
                cat3(
                    ".uasset export SerialSize does not match the paired .uexp (",
                    decimal(serial).as_str(),
                    " bytes)",
                ).as_str(),
            ),
        );
    }
    if u64_le(uasset, export_offset + 0x24) != total as u64 {
        return Err(
            mismatched(
                cat3(
                    ".uasset export SerialOffset at 0x",
                    hexadecimal((export_offset + 0x24) as u64).as_str(),
                    " does not equal the .uasset length",
                ).as_str(),
            ),
        );
    }
    Ok(())
}

/// What a valid header says of its database.
#[derive(Debug)]
pub struct UassetShellDescriptor {
    pub package_path: String,
    pub object_name: String,
    pub serial_size_offset: usize,
    pub bulk_data_start_offset: usize,
}

#[verifier::ext_equal]
pub struct UassetShellDescriptorView {
    pub package_path: Seq<char>,
    pub object_name: Seq<char>,
    pub serial_size_offset: int,
    pub bulk_data_start_offset: int,
}

impl View for UassetShellDescriptor {
    type V = UassetShellDescriptorView;

    open spec fn view(&self) -> UassetShellDescriptorView {
        UassetShellDescriptorView {
            package_path: self.package_path@,
            object_name: self.object_name@,
            serial_size_offset: self.serial_size_offset as int,
            bulk_data_start_offset: self.bulk_data_start_offset as int,
        }
    }
}

/// What a `.uasset` says of the database whose `.uexp` has `uexp_size` bytes,
/// or what speaks against it.
pub open spec fn shell_of(bytes: Seq<u8>, uexp_size: int, expected: Option<Seq<char>>) -> Outcome<
    UassetShellDescriptorView,
> {
    match shell_head(bytes) {
        Err(error) => Err(error),
        Ok((path, folder_end)) => match shell_tables(bytes, folder_end) {
            Err(error) => Err(error),
            Ok(tables) => match names_from(
                bytes,
                tables.name_offset,
                Seq::empty(),
                tables.name_count,
            ) {
                Err(error) => Err(error),
                Ok(names) => match shell_extent(bytes, tables) {
                    Err(error) => Err(error),
                    Ok(_) => match shell_object(bytes, tables, names, path) {
                        Err(error) => Err(error),
                        Ok(object) => match shell_place(path, expected) {
                            Err(error) => Err(error),
                            Ok(_) => match shell_sizes(bytes, tables.export_offset, uexp_size) {
                                Err(error) => Err(error),
                                Ok(_) => Ok(
                                    UassetShellDescriptorView {
                                        package_path: path,
                                        object_name: object,
                                        serial_size_offset: tables.export_offset + 0x1C,
                                        bulk_data_start_offset: tables.bulk_data_start_offset,
                                    },
                                ),
                            },
                        },
                    },
                },
            },
        },
    }
}

/// Reads the header of a database, and checks it against its `.uexp` and the
/// path under which the Pak holds it.
pub fn parse_uasset_shell(uasset: &[u8], uexp_size: usize, expected_asset_path: Option<&str>) -> (result:
    Result<UassetShellDescriptor>)
    ensures
        seen(result) == shell_of(
            uasset@,
            uexp_size as int,
            (match expected_asset_path {
                Some(expected) => Some(expected@),
                None => None,
            }),
        ),
        result matches Ok(found) ==> found.serial_size_offset + 16 <= uasset@.len(),
{
    let (package_path, folder_end) = match read_shell_head(uasset) {
        Ok(found) => found,
        Err(error) => {
            return Err(error);
        },
    };
    let tables = read_shell_tables(uasset, folder_end)?;
    let names = parse_uasset_names(uasset, tables.name_offset, tables.name_count)?;
    check_shell_extent(uasset, &tables)?;
    let object_name = read_shell_object(uasset, &tables, &names, package_path.as_str())?;
    check_shell_place(package_path.as_str(), expected_asset_path)?;
    check_shell_sizes(uasset, tables.export_offset, uexp_size)?;
    Ok(
        UassetShellDescriptor {
            package_path,
            object_name,
            serial_size_offset: tables.export_offset + 0x1C,
            bulk_data_start_offset: tables.bulk_data_start_offset,
        },
    )
}

/// Eight bytes, the least significant first.
pub open spec fn le64_bytes(value: u64) -> Seq<u8> {
    seq![
        (value % 256) as u8,
        (value / 0x100 % 256) as u8,
        (value / 0x1_0000 % 256) as u8,
        (value / 0x100_0000 % 256) as u8,
        (value / 0x1_0000_0000 % 256) as u8,
        (value / 0x100_0000_0000 % 256) as u8,
        (value / 0x1_0000_0000_0000 % 256) as u8,
        (value / 0x100_0000_0000_0000) as u8,
    ]
}

/// The bytes with a number written over the eight bytes at `at`.
pub open spec fn with_le64(bytes: Seq<u8>, at: int, value: u64) -> Seq<u8> {
    bytes.take(at) + le64_bytes(value) + bytes.skip(at + 8)
}

fn write_le64(bytes: &mut Vec<u8>, at: usize, value: u64)
    requires
        at + 8 <= old(bytes)@.len(),
    ensures
        final(bytes)@ == with_le64(old(bytes)@, at as int, value),
{
    let total: usize = bytes.len();
    bytes.set(at, (value % 256) as u8);
    bytes.set(at + 1, (value / 0x100 % 256) as u8);
    bytes.set(at + 2, (value / 0x1_0000 % 256) as u8);
    bytes.set(at + 3, (value / 0x100_0000 % 256) as u8);
    bytes.set(at + 4, (value / 0x1_0000_0000 % 256) as u8);
    bytes.set(at + 5, (value / 0x100_0000_0000 % 256) as u8);
    bytes.set(at + 6, (value / 0x1_0000_0000_0000 % 256) as u8);
    bytes.set(at + 7, (value / 0x100_0000_0000_0000) as u8);
    assert(bytes@ =~= with_le64(old(bytes)@, at as int, value));
}

/// The header with the size of a new `.uexp` in place of the old one.
pub open spec fn patched(uasset: Seq<u8>, old_uexp_size: int, new_uexp_size: int) -> Outcome<
    Seq<u8>,
> {
    match shell_of(uasset, old_uexp_size, None) {
        Err(error) => unverified(
            "the base Pak .uasset is not structurally valid: "@ + message_of(error),
        ),
        Ok(found) => if new_uexp_size < PACKAGE_TAG_SIZE {
            unverified("merged .uexp is shorter than its package tag"@)
        } else {
            let output = with_le64(
                uasset,
                found.serial_size_offset,
                (new_uexp_size - PACKAGE_TAG_SIZE) as u64,
            );
            match shell_of(output, new_uexp_size, None) {
                Err(error) => unverified(
                    "the updated .uasset no longer matches the merged .uexp: "@ + message_of(error),
                ),
                Ok(_) => Ok(output),
            }
        },
    }
}

/// Writes the size of a new `.uexp` into a header, and checks the outcome.
#[verifier::spinoff_prover]
#[verifier::rlimit(60)]
pub fn patch_serial_size(uasset: &[u8], old_uexp_size: usize, new_uexp_size: usize) -> (result: Result<
    Vec<u8>,
>)
    ensures
        match (result, patched(uasset@, old_uexp_size as int, new_uexp_size as int)) {
            (Ok(output), Ok(wanted)) => output@ == wanted,
            (Err(error), Err(wanted)) => error@ == wanted,
            _ => false,
        },
{
    let descriptor = match parse_uasset_shell(uasset, old_uexp_size, None) {
        Ok(descriptor) => descriptor,
        Err(error) => {
            return Err(
                MergeError::Verification(
                    cat2(
                        "the base Pak .uasset is not structurally valid: ",
                        error.message().as_str(),
                    ),
                ),
            );
        },
    };
    if new_uexp_size < PACKAGE_TAG_SIZE {
        return Err(
            MergeError::Verification("merged .uexp is shorter than its package tag".to_owned()),
        );
    }
    let mut output = slice_to_vec(uasset);
    write_le64(
        &mut output,
        descriptor.serial_size_offset,
        (new_uexp_size - PACKAGE_TAG_SIZE) as u64,
    );
    match parse_uasset_shell(output.as_slice(), new_uexp_size, None) {
        Ok(_) => Ok(output),
        Err(error) => Err(
            MergeError::Verification(
                cat2(
                    "the updated .uasset no longer matches the merged .uexp: ",
                    error.message().as_str(),
                ),
            ),
        ),
    }
}

/// Patching writes the new size into the export's size slot and changes no other
/// byte.
pub proof fn patch_changes_only_the_size_slot(uasset: Seq<u8>, old_uexp_size: int, new_uexp_size: int)
    requires
        patched(uasset, old_uexp_size, new_uexp_size) is Ok,
        new_uexp_size <= usize::MAX,
    ensures
        ({
            let output = patched(uasset, old_uexp_size, new_uexp_size)->Ok_0;
            let slot = shell_of(uasset, old_uexp_size, None)->Ok_0.serial_size_offset;
            &&& output.len() == uasset.len()
            &&& slot + 8 <= uasset.len()
            &&& le64(output, slot) == new_uexp_size - PACKAGE_TAG_SIZE
            &&& forall|i: int|
                0 <= i < uasset.len() && !(slot <= i < slot + 8) ==> output[i] == uasset[i]
        }),
{
    let slot = shell_of(uasset, old_uexp_size, None)->Ok_0.serial_size_offset;
    let value = (new_uexp_size - PACKAGE_TAG_SIZE) as u64;
    size_slot_is_inside(uasset, old_uexp_size);
    written_number_reads_back(uasset, slot, value);
}

/// The size slot of a valid header lies inside it.
proof fn size_slot_is_inside(bytes: Seq<u8>, uexp_size: int)
    requires
        shell_of(bytes, uexp_size, None) is Ok,
    ensures
        ({
            let slot = shell_of(bytes, uexp_size, None)->Ok_0.serial_size_offset;
            0x1C <= slot && slot + 16 <= bytes.len()
        }),
{
    let (path, folder_end) = shell_head(bytes)->Ok_0;
    let tables = shell_tables(bytes, folder_end)->Ok_0;
    assert(shell_extent(bytes, tables) is Ok);
    assert(tables.export_offset >= 0);
}

/// A number written over eight bytes reads back, and touches no other byte.
proof fn written_number_reads_back(bytes: Seq<u8>, at: int, value: u64)
    requires
        0 <= at,
        at + 8 <= bytes.len(),
    ensures
        with_le64(bytes, at, value).len() == bytes.len(),
        le64(with_le64(bytes, at, value), at) == value,
        forall|i: int|
            0 <= i < bytes.len() && !(at <= i < at + 8) ==> with_le64(bytes, at, value)[i]
                == bytes[i],
{
    let output = with_le64(bytes, at, value);
    let digits = le64_bytes(value);
    assert(value == value % 256 + 256 * (value / 0x100 % 256) + 65536 * (value / 0x1_0000 % 256)
        + 16777216 * (value / 0x100_0000 % 256) + 4294967296 * (value / 0x1_0000_0000 % 256
        + 256 * (value / 0x100_0000_0000 % 256) + 65536 * (value / 0x1_0000_0000_0000 % 256)
        + 16777216 * (value / 0x100_0000_0000_0000))) by (bit_vector);
    assert(value / 0x100_0000_0000_0000 < 256);
    assert forall|i: int| 0 <= i < 8 implies #[trigger] output[at + i] == digits[i] by {}
    assert(output[at + 0] == digits[0]);
    assert(output[at + 1] == digits[1]);
    assert(output[at + 2] == digits[2]);
    assert(output[at + 3] == digits[3]);
    assert(output[at + 4] == digits[4]);
    assert(output[at + 5] == digits[5]);
    assert(output[at + 6] == digits[6]);
    assert(output[at + 7] == digits[7]);
}

} // verus!
