//! A cursor over the bytes of one region of a Pak.
use vstd::prelude::*;
use vstd::slice::{slice_subrange, slice_to_vec};
use vstd::utf8::{decode_utf8, valid_utf8};

use super::error::{corrupt, PakError, PakErrorView, Result};
use crate::text::{cat2, cat3, cat5, dec, decimal_usize, decode_utf16, utf16_text, utf8_text};

verus! {

/// Structural limit for one region of archive metadata.
pub const MAX_INDEX_BYTES: u64 = 1_073_741_824;

/// The little-endian number of the two bytes at `at`.
pub open spec fn le16(data: Seq<u8>, at: int) -> int {
    data[at] + 256 * data[at + 1]
}

/// The little-endian number of the four bytes at `at`.
pub open spec fn le32(data: Seq<u8>, at: int) -> int {
    data[at] + 256 * data[at + 1] + 65536 * data[at + 2] + 16777216 * data[at + 3]
}

/// The little-endian number of the eight bytes at `at`.
pub open spec fn le64(data: Seq<u8>, at: int) -> int {
    le32(data, at) + 4294967296 * le32(data, at + 4)
}

/// The number of four bytes as two's complement.
pub open spec fn signed32(value: int) -> int {
    if value < 0x8000_0000 {
        value
    } else {
        value - 0x1_0000_0000
    }
}

pub fn u16_le(data: &[u8], at: usize) -> (value: u16)
    requires
        at + 2 <= data@.len(),
    ensures
        value == le16(data@, at as int),
{
    data[at] as u16 + 256 * (data[at + 1] as u16)
}

pub fn u32_le(data: &[u8], at: usize) -> (value: u32)
    requires
        at + 4 <= data@.len(),
    ensures
        value == le32(data@, at as int),
{
    data[at] as u32 + 256 * (data[at + 1] as u32) + 65536 * (data[at + 2] as u32) + 16777216 * (data[
    at + 3] as u32)
}

pub fn i32_of(value: u32) -> (result: i32)
    ensures
        result == signed32(value as int),
{
    if value < 0x8000_0000 {
        value as i32
    } else {
        (value as i64 - 0x1_0000_0000) as i32
    }
}

pub fn u64_le(data: &[u8], at: usize) -> (value: u64)
    requires
        at + 8 <= data@.len(),
    ensures
        value == le64(data@, at as int),
{
    let total: usize = data.len();
    assert(at + 8 <= total);
    u32_le(data, at) as u64 + 4294967296 * (u32_le(data, at + 4) as u64)
}

/// What a reading step yields: a value and the position after it.
pub type Step<W> = std::result::Result<(W, int), PakErrorView>;

/// The next `length` bytes.
pub open spec fn bytes_at(data: Seq<u8>, at: int, length: int, context: Seq<char>) -> Step<
    Seq<u8>,
> {
    if at + length > usize::MAX {
        corrupt(context + " cursor overflow"@)
    } else if at + length > data.len() {
        corrupt(
            "unexpected end of "@ + context + " (wanted "@ + dec(length as nat) + (" bytes, "@
                + dec((data.len() - at) as nat) + " remain)"@),
        )
    } else {
        Ok((data.subrange(at, at + length), at + length))
    }
}

pub open spec fn u8_at(data: Seq<u8>, at: int, context: Seq<char>) -> Step<u8> {
    match bytes_at(data, at, 1, context) {
        Ok((bytes, next)) => Ok((bytes[0], next)),
        Err(error) => Err(error),
    }
}

pub open spec fn u32_at(data: Seq<u8>, at: int, context: Seq<char>) -> Step<u32> {
    match bytes_at(data, at, 4, context) {
        Ok((bytes, next)) => Ok((le32(bytes, 0) as u32, next)),
        Err(error) => Err(error),
    }
}

pub open spec fn i32_at(data: Seq<u8>, at: int, context: Seq<char>) -> Step<i32> {
    match bytes_at(data, at, 4, context) {
        Ok((bytes, next)) => Ok((signed32(le32(bytes, 0)) as i32, next)),
        Err(error) => Err(error),
    }
}

pub open spec fn u64_at(data: Seq<u8>, at: int, context: Seq<char>) -> Step<u64> {
    match bytes_at(data, at, 8, context) {
        Ok((bytes, next)) => Ok((le64(bytes, 0) as u64, next)),
        Err(error) => Err(error),
    }
}

/// The 16-bit units of a run of bytes.
pub open spec fn le16_units(bytes: Seq<u8>) -> Seq<u16> {
    Seq::new((bytes.len() / 2) as nat, |i: int| le16(bytes, 2 * i) as u16)
}

/// A text with a 32-bit length: positive for UTF-8, negative for UTF-16, and
/// terminated by NUL in either case.
pub open spec fn fstring_at(data: Seq<u8>, at: int, context: Seq<char>) -> Step<Seq<char>> {
    match i32_at(data, at, context) {
        Err(error) => Err(error),
        Ok((length, next)) => {
            let remaining = data.len() - next;
            if length == 0 {
                Ok((Seq::empty(), next))
            } else if length == i32::MIN {
                corrupt("invalid FString length in "@ + context)
            } else if length > 0 {
                if length > MAX_INDEX_BYTES || length > remaining {
                    corrupt(
                        "invalid ANSI FString length "@ + dec(length as nat) + " in "@ + context,
                    )
                } else {
                    let bytes = data.subrange(next, next + length);
                    if bytes.last() != 0 {
                        corrupt("ANSI FString is not NUL terminated in "@ + context)
                    } else if valid_utf8(bytes.drop_last()) {
                        Ok((decode_utf8(bytes.drop_last()), next + length))
                    } else {
                        corrupt("non-UTF-8 FString in "@ + context)
                    }
                }
            } else {
                let units = -length;
                if 2 * units > usize::MAX {
                    corrupt("UTF-16 FString length overflow"@)
                } else if 2 * units > MAX_INDEX_BYTES || 2 * units > remaining {
                    corrupt(
                        "invalid UTF-16 FString length "@ + dec(units as nat) + " in "@ + context,
                    )
                } else {
                    let wide = le16_units(data.subrange(next, next + 2 * units));
                    if wide.last() != 0 {
                        corrupt("UTF-16 FString is not NUL terminated in "@ + context)
                    } else {
                        match decode_utf16(wide.drop_last()) {
                            Some(text) => Ok((text, next + 2 * units)),
                            None => corrupt("invalid UTF-16 in "@ + context),
                        }
                    }
                }
            }
        },
    }
}

/// A reading that must end with the region.
pub open spec fn finished(data: Seq<u8>, at: int, context: Seq<char>) -> std::result::Result<
    (),
    PakErrorView,
> {
    if data.len() - at != 0 {
        corrupt(context + " has "@ + dec((data.len() - at) as nat) + " trailing bytes"@)
    } else {
        Ok(())
    }
}

/// `outcome` is what `expected` says, and `next` is the position after it.
pub open spec fn took<T: View>(outcome: Result<T>, next: int, expected: Step<T::V>) -> bool {
    match (outcome, expected) {
        (Ok(value), Ok((wanted, after))) => value@ == wanted && next == after,
        (Err(error), Err(wanted)) => error@ == wanted,
        _ => false,
    }
}

pub struct SliceReader<'a> {
    pub data: &'a [u8],
    pub position: usize,
    pub context: &'static str,
}

impl<'a> SliceReader<'a> {
    pub open spec fn well_formed(&self) -> bool {
        self.position <= self.data@.len()
    }

    /// The same region is being read.
    pub open spec fn continues(&self, before: &SliceReader<'a>) -> bool {
        &&& self.data == before.data
        &&& self.context == before.context
        &&& self.position <= self.data@.len()
    }

    pub fn new(data: &'a [u8], context: &'static str) -> (reader: Self)
        ensures
            reader.data == data,
            reader.context == context,
            reader.position == 0,
            reader.well_formed(),
    {
        SliceReader { data, position: 0, context }
    }

    pub fn remaining(&self) -> (count: usize)
        requires
            self.well_formed(),
        ensures
            count == self.data@.len() - self.position,
            self.data@.len() <= usize::MAX,
    {
        self.data.len() - self.position
    }

    pub fn read_bytes(&mut self, length: usize) -> (result: Result<&'a [u8]>)
        requires
            old(self).well_formed(),
        ensures
            final(self).continues(old(self)),
            match (result, bytes_at(old(self).data@, old(self).position as int, length as int, old(self).context@)) {
                (Ok(bytes), Ok((wanted, after))) => bytes@ == wanted && final(self).position == after,
                (Err(error), Err(wanted)) => error@ == wanted,
                _ => false,
            },
    {
        let end: usize = match self.position.checked_add(length) {
            Some(end) => end,
            None => {
                return Err(PakError::Corrupt(cat2(self.context, " cursor overflow")));
            },
        };
        if end > self.data.len() {
            return Err(
                PakError::Corrupt(
                    cat5(
                        "unexpected end of ",
                        self.context,
                        " (wanted ",
                        decimal_usize(length).as_str(),
                        cat3(" bytes, ", decimal_usize(self.remaining()).as_str(), " remain)").as_str(),
                    ),
                ),
            );
        }
        let bytes = slice_subrange(self.data, self.position, end);
        self.position = end;
        Ok(bytes)
    }

    pub fn skip(&mut self, length: usize) -> (result: Result<()>)
        requires
            old(self).well_formed(),
        ensures
            final(self).continues(old(self)),
            match (result, bytes_at(old(self).data@, old(self).position as int, length as int, old(self).context@)) {
                (Ok(_), Ok((_, after))) => final(self).position == after,
                (Err(error), Err(wanted)) => error@ == wanted,
                _ => false,
            },
    {
        self.read_bytes(length)?;
        Ok(())
    }

    pub fn read_u8(&mut self) -> (result: Result<u8>)
        requires
            old(self).well_formed(),
        ensures
            final(self).continues(old(self)),
            took(result, final(self).position as int, u8_at(old(self).data@, old(self).position as int, old(self).context@)),
    {
        let bytes = self.read_bytes(1)?;
        Ok(bytes[0])
    }

    pub fn read_u32(&mut self) -> (result: Result<u32>)
        requires
            old(self).well_formed(),
        ensures
            final(self).continues(old(self)),
            took(result, final(self).position as int, u32_at(old(self).data@, old(self).position as int, old(self).context@)),
    {
        let bytes = self.read_bytes(4)?;
        Ok(u32_le(bytes, 0))
    }

    pub fn read_i32(&mut self) -> (result: Result<i32>)
        requires
            old(self).well_formed(),
        ensures
            final(self).continues(old(self)),
            took(result, final(self).position as int, i32_at(old(self).data@, old(self).position as int, old(self).context@)),
    {
        let bytes = self.read_bytes(4)?;
        Ok(i32_of(u32_le(bytes, 0)))
    }

    pub fn read_u64(&mut self) -> (result: Result<u64>)
        requires
            old(self).well_formed(),
        ensures
            final(self).continues(old(self)),
            took(result, final(self).position as int, u64_at(old(self).data@, old(self).position as int, old(self).context@)),
    {
        let bytes = self.read_bytes(8)?;
        Ok(u64_le(bytes, 0))
    }

    pub fn read_array_20(&mut self) -> (result: Result<Vec<u8>>)
        requires
            old(self).well_formed(),
        ensures
            final(self).continues(old(self)),
            took(result, final(self).position as int, bytes_at(old(self).data@, old(self).position as int, 20, old(self).context@)),
    {
        let bytes = self.read_bytes(20)?;
        Ok(slice_to_vec(bytes))
    }

    pub fn read_fstring(&mut self) -> (result: Result<String>)
        requires
            old(self).well_formed(),
        ensures
            final(self).continues(old(self)),
            took(result, final(self).position as int, fstring_at(old(self).data@, old(self).position as int, old(self).context@)),
    {
        let length: i32 = self.read_i32()?;
        if length == 0 {
            return Ok(String::new());
        }
        if length == i32::MIN {
            return Err(PakError::Corrupt(cat2("invalid FString length in ", self.context)));
        }
        if length > 0 {
            let count: usize = length as usize;
            if count > MAX_INDEX_BYTES as usize || count > self.remaining() {
                return Err(
                    PakError::Corrupt(
                        crate::text::cat4(
                            "invalid ANSI FString length ",
                            decimal_usize(count).as_str(),
                            " in ",
                            self.context,
                        ),
                    ),
                );
            }
            let bytes = self.read_bytes(count)?;
            if bytes[count - 1] != 0 {
                return Err(
                    PakError::Corrupt(cat2("ANSI FString is not NUL terminated in ", self.context)),
                );
            }
            let text_bytes = slice_to_vec(slice_subrange(bytes, 0, count - 1));
            assert(text_bytes@ == bytes@.drop_last());
            match utf8_text(text_bytes) {
                Some(text) => Ok(text),
                None => Err(PakError::Corrupt(cat2("non-UTF-8 FString in ", self.context))),
            }
        } else {
            let units: usize = (-(length as i64)) as usize;
            let byte_length: usize = match units.checked_mul(2) {
                Some(byte_length) => byte_length,
                None => {
                    return Err(PakError::Corrupt("UTF-16 FString length overflow".to_owned()));
                },
            };
            if byte_length > MAX_INDEX_BYTES as usize || byte_length > self.remaining() {
                return Err(
                    PakError::Corrupt(
                        crate::text::cat4(
                            "invalid UTF-16 FString length ",
                            decimal_usize(units).as_str(),
                            " in ",
                            self.context,
                        ),
                    ),
                );
            }
            let bytes = self.read_bytes(byte_length)?;
            let mut wide: Vec<u16> = Vec::new();
            let mut at: usize = 0;
            while at < units
                invariant
                    at <= units,
                    2 * units == byte_length == bytes@.len(),
                    wide@ == le16_units(bytes@).take(at as int),
                decreases units - at,
            {
                wide.push(u16_le(bytes, 2 * at));
                at += 1;
            }
            assert(wide@ == le16_units(bytes@));
            match wide.pop() {
                Some(0) => match utf16_text(&wide) {
                    Some(text) => Ok(text),
                    None => Err(PakError::Corrupt(cat2("invalid UTF-16 in ", self.context))),
                },
                _ => Err(
                    PakError::Corrupt(cat2("UTF-16 FString is not NUL terminated in ", self.context)),
                ),
            }
        }
    }

    pub fn finish(&self) -> (result: Result<()>)
        requires
            self.well_formed(),
        ensures
            super::error::seen(result) == finished(self.data@, self.position as int, self.context@),
    {
        if self.remaining() != 0 {
            return Err(
                PakError::Corrupt(
                    crate::text::cat4(
                        self.context,
                        " has ",
                        decimal_usize(self.remaining()).as_str(),
                        " trailing bytes",
                    ),
                ),
            );
        }
        Ok(())
    }
}

} // verus!
