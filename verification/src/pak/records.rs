//! The records of stored files as bytes, and that reading takes them back: the encoded
//! records of the file list and the headers before the files.
use vstd::prelude::*;

use super::blocks::{
    block_table_at, blocks_at, flags_at, header_len, is_known_codec, legacy_entry_at, method_at,
    method_fault, timestamp_at, CompressionBlock, LegacyEntryView, MAX_COMPRESSION_BLOCKS,
};
use super::error::PakErrorView;
use super::footer::PakVersion;
use super::index::{
    block_sizes_at, encoded_entry, encoded_int_at, encoded_sizes_at, total_of, EncodedEntryView,
};
use super::reader::{bytes_at, le32, le64, u32_at, u64_at};

verus! {

/// Four bytes of a number, the lowest first.
pub open spec fn word_bytes(value: u32) -> Seq<u8> {
    seq![
        (value % 256) as u8,
        (value / 256 % 256) as u8,
        (value / 65536 % 256) as u8,
        (value / 16777216) as u8,
    ]
}

/// Eight bytes of a number, the lowest first.
pub open spec fn long_bytes(value: u64) -> Seq<u8> {
    word_bytes((value % 0x1_0000_0000) as u32) + word_bytes((value / 0x1_0000_0000) as u32)
}

/// A run of bytes stands at a position.
pub open spec fn stands_at(data: Seq<u8>, at: int, part: Seq<u8>) -> bool {
    &&& 0 <= at
    &&& at + part.len() <= data.len()
    &&& data.subrange(at, at + part.len()) == part
}

/// Where two runs of bytes stand one behind the other, each of them stands.
pub proof fn parts_stand(data: Seq<u8>, at: int, left: Seq<u8>, right: Seq<u8>)
    requires
        stands_at(data, at, left + right),
    ensures
        stands_at(data, at, left),
        stands_at(data, at + left.len(), right),
{
    let all = data.subrange(at, at + left.len() + right.len());
    assert(all.take(left.len() as int) =~= data.subrange(at, at + left.len()));
    assert((left + right).take(left.len() as int) =~= left);
    assert(all.skip(left.len() as int) =~= data.subrange(
        at + left.len(),
        at + left.len() + right.len(),
    ));
    assert((left + right).skip(left.len() as int) =~= right);
}

/// The four bytes of a number have its value.
pub proof fn word_values(value: u32)
    ensures
        word_bytes(value).len() == 4,
        le32(word_bytes(value), 0) == value,
{
}

/// A number of four bytes is read back.
pub proof fn words_are_read_back(data: Seq<u8>, at: int, value: u32, context: Seq<char>)
    requires
        stands_at(data, at, word_bytes(value)),
        data.len() <= usize::MAX,
    ensures
        u32_at(data, at, context) == Ok::<(u32, int), PakErrorView>((value, at + 4)),
{
    word_values(value);
}

/// A number of eight bytes is read back.
pub proof fn longs_are_read_back(data: Seq<u8>, at: int, value: u64, context: Seq<char>)
    requires
        stands_at(data, at, long_bytes(value)),
        data.len() <= usize::MAX,
    ensures
        u64_at(data, at, context) == Ok::<(u64, int), PakErrorView>((value, at + 8)),
{
    let low = word_bytes((value % 0x1_0000_0000) as u32);
    let high = word_bytes((value / 0x1_0000_0000) as u32);
    let bytes = long_bytes(value);
    word_values((value % 0x1_0000_0000) as u32);
    word_values((value / 0x1_0000_0000) as u32);
    assert(bytes[0] == low[0] && bytes[1] == low[1] && bytes[2] == low[2] && bytes[3] == low[3]);
    assert(bytes[4] == high[0] && bytes[5] == high[1] && bytes[6] == high[2] && bytes[7]
        == high[3]);
    assert(le32(bytes, 0) == le32(low, 0));
    assert(le32(bytes, 4) == le32(high, 0));
    assert(le64(bytes, 0) == value);
}

/// The bytes of a number that is stored short or long.
pub open spec fn number_bytes(short: bool, value: u64) -> Seq<u8> {
    if short {
        word_bytes(value as u32)
    } else {
        long_bytes(value)
    }
}

proof fn numbers_are_read_back(short: bool, data: Seq<u8>, at: int, value: u64, context: Seq<char>)
    requires
        stands_at(data, at, number_bytes(short, value)),
        short ==> value <= u32::MAX,
        data.len() <= usize::MAX,
    ensures
        encoded_int_at(short, data, at, context) == Ok::<(u64, int), PakErrorView>(
            (value, at + number_bytes(short, value).len()),
        ),
{
    if short {
        words_are_read_back(data, at, value as u32, context);
    } else {
        longs_are_read_back(data, at, value, context);
    }
}

/// How the numbers of an encoded record are stored: the offset and the two sizes short
/// or long, the block size in its code or in a number of its own.
pub struct RecordForm {
    pub short_offset: bool,
    pub short_size: bool,
    pub short_stored: bool,
    pub own_block_size: bool,
}

/// The sum of block sizes.
pub open spec fn sum_of_sizes(sizes: Seq<u64>) -> int {
    sizes.fold_left(0int, |sum: int, size: u64| sum + size)
}

proof fn sums_agree(sizes: Seq<u64>)
    ensures
        total_of(sizes) == sum_of_sizes(sizes),
    decreases sizes.len(),
{
    if sizes.len() > 0 {
        sums_agree(sizes.drop_last());
    }
}

/// The block sizes stand in the record, each as a number: all but the one size of a file
/// with one block.
pub open spec fn lists_sizes(entry: EncodedEntryView) -> bool {
    entry.compression_method != 0 && !(entry.block_sizes.len() == 1 && !entry.encrypted)
}

/// A record that the format can hold.
pub open spec fn is_record(entry: EncodedEntryView) -> bool {
    &&& entry.compression_method < 64
    &&& entry.block_sizes.len() < 65536
    &&& if entry.compression_method == 0 {
        &&& entry.block_sizes.len() == 0
        &&& entry.compression_block_size == 0
        &&& entry.compressed_size == entry.uncompressed_size
    } else {
        &&& entry.block_sizes.len() > 0
        &&& entry.encrypted || sum_of_sizes(entry.block_sizes) == entry.compressed_size
        &&& lists_sizes(entry) ==> forall|i: int|
            0 <= i < entry.block_sizes.len() ==> #[trigger] entry.block_sizes[i] <= u32::MAX
    }
}

/// The form can hold the numbers of a record: a block size without a number of its own
/// is a multiple of 2048 below 63 times that.
pub open spec fn holds(form: RecordForm, entry: EncodedEntryView) -> bool {
    &&& form.short_offset ==> entry.header_offset <= u32::MAX
    &&& form.short_size ==> entry.uncompressed_size <= u32::MAX
    &&& form.short_stored ==> entry.compressed_size <= u32::MAX
    &&& !form.own_block_size ==> entry.compression_block_size % 2048 == 0
        && entry.compression_block_size < 63 * 2048
}

/// A flag as a number.
pub open spec fn one_if(flag: bool) -> int {
    if flag {
        1
    } else {
        0
    }
}

/// The first number of a record. From the lowest bit on: six bits for the block size in
/// units of 2048, or all of them where it has a number of its own; sixteen for the
/// count of blocks; one for encryption; six for the method; and one each for the
/// stored size, the size and the offset that are short.
pub open spec fn record_bits(entry: EncodedEntryView, form: RecordForm) -> int {
    (if form.own_block_size {
        63
    } else {
        entry.compression_block_size as int / 2048
    }) + 64 * entry.block_sizes.len() + 0x40_0000 * one_if(entry.encrypted) + 0x80_0000
        * entry.compression_method + 0x2000_0000 * one_if(form.short_stored) + 0x4000_0000 * one_if(
        form.short_size,
    ) + 0x8000_0000 * one_if(form.short_offset)
}

/// Block sizes as numbers, one after the other.
pub open spec fn sizes_bytes(sizes: Seq<u64>) -> Seq<u8> {
    sizes.map_values(|size: u64| word_bytes(size as u32)).flatten()
}

/// An encoded record as bytes.
pub open spec fn record_bytes(entry: EncodedEntryView, form: RecordForm) -> Seq<u8> {
    word_bytes(record_bits(entry, form) as u32) + ((if form.own_block_size {
        word_bytes(entry.compression_block_size)
    } else {
        Seq::empty()
    }) + (number_bytes(form.short_offset, entry.header_offset) + (number_bytes(
        form.short_size,
        entry.uncompressed_size,
    ) + ((if entry.compression_method != 0 {
        number_bytes(form.short_stored, entry.compressed_size)
    } else {
        Seq::empty()
    }) + (if lists_sizes(entry) {
        sizes_bytes(entry.block_sizes)
    } else {
        Seq::empty()
    })))))
}

proof fn sizes_are_read_back(
    done: Seq<u64>,
    data: Seq<u8>,
    at: int,
    sizes: Seq<u64>,
    context: Seq<char>,
)
    requires
        stands_at(data, at, sizes_bytes(sizes)),
        data.len() <= usize::MAX,
        forall|i: int| 0 <= i < sizes.len() ==> #[trigger] sizes[i] <= u32::MAX,
    ensures
        block_sizes_at(done, data, at, sizes.len() as int, context) matches Ok((all, _)) && all
            == done + sizes,
    decreases sizes.len(),
{
    if sizes.len() == 0 {
        assert(done + sizes =~= done);
    } else {
        let rest = sizes.skip(1);
        let lists = sizes.map_values(|size: u64| word_bytes(size as u32));
        assert(lists.first() == word_bytes(sizes[0] as u32));
        assert(lists.drop_first() =~= rest.map_values(|size: u64| word_bytes(size as u32)));
        parts_stand(data, at, word_bytes(sizes[0] as u32), sizes_bytes(rest));
        words_are_read_back(data, at, sizes[0] as u32, context);
        assert forall|i: int| 0 <= i < rest.len() implies #[trigger] rest[i] <= u32::MAX by {
            assert(rest[i] == sizes[i + 1]);
        }
        sizes_are_read_back(done.push(sizes[0]), data, at + 4, rest, context);
        assert(done.push(sizes[0]) + rest =~= done + sizes);
    }
}

/// The fields of the first number of a record are taken apart again.
proof fn bits_are_read_back(entry: EncodedEntryView, form: RecordForm)
    requires
        is_record(entry),
        holds(form, entry),
    ensures
        ({
            let bits = record_bits(entry, form);
            &&& 0 <= bits <= u32::MAX
            &&& bits / 0x80_0000 % 64 == entry.compression_method
            &&& bits / 0x40_0000 % 2 == one_if(entry.encrypted)
            &&& bits / 64 % 0x1_0000 == entry.block_sizes.len()
            &&& bits / 0x8000_0000 % 2 == one_if(form.short_offset)
            &&& bits / 0x4000_0000 % 2 == one_if(form.short_size)
            &&& bits / 0x2000_0000 % 2 == one_if(form.short_stored)
            &&& form.own_block_size ==> bits % 64 == 63
            &&& !form.own_block_size ==> bits % 64 == entry.compression_block_size as int / 2048
                && bits % 64 < 63
        }),
{
}

/// An encoded record is read back, wherever it stands among the records and however its
/// numbers are stored: in particular the block size that its code stands for.
pub proof fn records_are_read_back(
    records: Seq<u8>,
    offset: int,
    entry: EncodedEntryView,
    form: RecordForm,
    path: Seq<char>,
)
    requires
        is_record(entry),
        holds(form, entry),
        records.len() <= usize::MAX,
        stands_at(records, offset, record_bytes(entry, form)),
    ensures
        encoded_entry(records, offset, path) == Ok::<EncodedEntryView, PakErrorView>(entry),
{
    let data = records.skip(offset);
    let all = record_bytes(entry, form);
    word_values(record_bits(entry, form) as u32);
    assert(all.len() >= 4);
    assert(data.subrange(0, all.len() as int) =~= records.subrange(offset, offset + all.len()));
    bits_are_read_back(entry, form);
    numbers_of_records_are_read_back(data, entry, form, path);
    numbers_make_up_a_record(records, offset, entry, form, record_bits(entry, form) as u32, path);
}

proof fn numbers_make_up_a_record(
    records: Seq<u8>,
    offset: int,
    entry: EncodedEntryView,
    form: RecordForm,
    bits: u32,
    path: Seq<char>,
)
    requires
        offset < records.len(),
        is_record(entry),
        holds(form, entry),
        bits / 0x80_0000 % 64 == entry.compression_method,
        bits / 0x40_0000 % 2 == one_if(entry.encrypted),
        bits / 64 % 0x1_0000 == entry.block_sizes.len(),
        bits / 0x8000_0000 % 2 == one_if(form.short_offset),
        bits / 0x4000_0000 % 2 == one_if(form.short_size),
        bits / 0x2000_0000 % 2 == one_if(form.short_stored),
        form.own_block_size ==> bits % 64 == 63,
        !form.own_block_size ==> bits % 64 == entry.compression_block_size as int / 2048 && bits % 64
            < 63,
        ({
            let data = records.skip(offset);
            let context = "file record"@;
            let at2 = 4 + own_len(form);
            let at3 = at2 + number_len(form.short_offset);
            let at4 = at3 + number_len(form.short_size);
            let at5 = at4 + number_len(form.short_stored);
            &&& u32_at(data, 0, context) == Ok::<(u32, int), PakErrorView>((bits, 4))
            &&& form.own_block_size ==> u32_at(data, 4, context) == Ok::<(u32, int), PakErrorView>(
                (entry.compression_block_size, 8),
            )
            &&& encoded_int_at(form.short_offset, data, at2, context) == Ok::<
                (u64, int),
                PakErrorView,
            >((entry.header_offset, at3))
            &&& encoded_int_at(form.short_size, data, at3, context) == Ok::<
                (u64, int),
                PakErrorView,
            >((entry.uncompressed_size, at4))
            &&& entry.compression_method != 0 ==> encoded_int_at(
                form.short_stored,
                data,
                at4,
                context,
            ) == Ok::<(u64, int), PakErrorView>((entry.compressed_size, at5)) && encoded_sizes_at(
                entry.block_sizes.len() as u32,
                entry.encrypted,
                entry.compressed_size,
                data,
                at5,
                context,
                path,
            ) == Ok::<Seq<u64>, PakErrorView>(entry.block_sizes)
            &&& entry.compression_method == 0 ==> entry.block_sizes == Seq::<u64>::empty()
        }),
    ensures
        encoded_entry(records, offset, path) == Ok::<EncodedEntryView, PakErrorView>(entry),
{
    let code = bits % 64;
    if !form.own_block_size {
        assert((code * 2048) as u32 == entry.compression_block_size);
    }
    assert((bits / 0x80_0000 % 64) as u32 == entry.compression_method);
    assert((bits / 64 % 0x1_0000) as u32 == entry.block_sizes.len() as u32);
    match encoded_entry(records, offset, path) {
        Ok(found) => {
            assert(found.header_offset == entry.header_offset);
            assert(found.compressed_size == entry.compressed_size);
            assert(found.uncompressed_size == entry.uncompressed_size);
            assert(found.compression_method == entry.compression_method);
            assert(found.compression_block_size == entry.compression_block_size);
            assert(found.block_sizes == entry.block_sizes);
            assert(found.encrypted == entry.encrypted);
        },
        Err(_) => {},
    }
}

spec fn own_len(form: RecordForm) -> int {
    if form.own_block_size {
        4
    } else {
        0
    }
}

spec fn number_len(short: bool) -> int {
    if short {
        4
    } else {
        8
    }
}

proof fn numbers_have_a_length(short: bool, value: u64)
    ensures
        number_bytes(short, value).len() == number_len(short),
{
    word_values(value as u32);
    word_values((value % 0x1_0000_0000) as u32);
    word_values((value / 0x1_0000_0000) as u32);
}

proof fn numbers_of_records_are_read_back(
    data: Seq<u8>,
    entry: EncodedEntryView,
    form: RecordForm,
    path: Seq<char>,
)
    requires
        is_record(entry),
        holds(form, entry),
        data.len() <= usize::MAX,
        stands_at(data, 0, record_bytes(entry, form)),
    ensures
        ({
            let context = "file record"@;
            let at2 = 4 + own_len(form);
            let at3 = at2 + number_len(form.short_offset);
            let at4 = at3 + number_len(form.short_size);
            let at5 = at4 + number_len(form.short_stored);
            &&& u32_at(data, 0, context) == Ok::<(u32, int), PakErrorView>(
                (record_bits(entry, form) as u32, 4),
            )
            &&& form.own_block_size ==> u32_at(data, 4, context) == Ok::<(u32, int), PakErrorView>(
                (entry.compression_block_size, 8),
            )
            &&& encoded_int_at(form.short_offset, data, at2, context) == Ok::<
                (u64, int),
                PakErrorView,
            >((entry.header_offset, at3))
            &&& encoded_int_at(form.short_size, data, at3, context) == Ok::<
                (u64, int),
                PakErrorView,
            >((entry.uncompressed_size, at4))
            &&& entry.compression_method != 0 ==> encoded_int_at(
                form.short_stored,
                data,
                at4,
                context,
            ) == Ok::<(u64, int), PakErrorView>((entry.compressed_size, at5)) && encoded_sizes_at(
                entry.block_sizes.len() as u32,
                entry.encrypted,
                entry.compressed_size,
                data,
                at5,
                context,
                path,
            ) == Ok::<Seq<u64>, PakErrorView>(entry.block_sizes)
            &&& entry.compression_method == 0 ==> entry.block_sizes == Seq::<u64>::empty()
        }),
{
    let context = "file record"@;
    let bits = record_bits(entry, form) as u32;
    let own = if form.own_block_size {
        word_bytes(entry.compression_block_size)
    } else {
        Seq::empty()
    };
    let place = number_bytes(form.short_offset, entry.header_offset);
    let size = number_bytes(form.short_size, entry.uncompressed_size);
    let stored = if entry.compression_method != 0 {
        number_bytes(form.short_stored, entry.compressed_size)
    } else {
        Seq::empty()
    };
    let tail = if lists_sizes(entry) {
        sizes_bytes(entry.block_sizes)
    } else {
        Seq::empty()
    };
    assert(record_bytes(entry, form) == word_bytes(bits) + (own + (place + (size + (stored
        + tail)))));
    word_values(bits);
    word_values(entry.compression_block_size);
    numbers_have_a_length(form.short_offset, entry.header_offset);
    numbers_have_a_length(form.short_size, entry.uncompressed_size);
    numbers_have_a_length(form.short_stored, entry.compressed_size);
    parts_stand(data, 0, word_bytes(bits), own + (place + (size + (stored + tail))));
    let at1 = 4int;
    parts_stand(data, at1, own, place + (size + (stored + tail)));
    let at2 = at1 + own.len();
    parts_stand(data, at2, place, size + (stored + tail));
    let at3 = at2 + place.len();
    parts_stand(data, at3, size, stored + tail);
    let at4 = at3 + size.len();
    parts_stand(data, at4, stored, tail);
    let at5 = at4 + stored.len();
    words_are_read_back(data, 0, bits, context);
    if form.own_block_size {
        words_are_read_back(data, at1, entry.compression_block_size, context);
    }
    numbers_are_read_back(form.short_offset, data, at2, entry.header_offset, context);
    numbers_are_read_back(form.short_size, data, at3, entry.uncompressed_size, context);
    if entry.compression_method != 0 {
        numbers_are_read_back(form.short_stored, data, at4, entry.compressed_size, context);
        stored_sizes_are_read_back(entry, data, at5, context, path);
    } else {
        assert(entry.block_sizes =~= Seq::<u64>::empty());
    }
}

proof fn stored_sizes_are_read_back(
    entry: EncodedEntryView,
    data: Seq<u8>,
    at: int,
    context: Seq<char>,
    path: Seq<char>,
)
    requires
        is_record(entry),
        entry.compression_method != 0,
        data.len() <= usize::MAX,
        lists_sizes(entry) ==> stands_at(data, at, sizes_bytes(entry.block_sizes)),
    ensures
        encoded_sizes_at(
            entry.block_sizes.len() as u32,
            entry.encrypted,
            entry.compressed_size,
            data,
            at,
            context,
            path,
        ) == Ok::<Seq<u64>, PakErrorView>(entry.block_sizes),
{
    let sizes = entry.block_sizes;
    sums_agree(sizes);
    if lists_sizes(entry) {
        sizes_are_read_back(Seq::empty(), data, at, sizes, context);
        assert(Seq::<u64>::empty() + sizes =~= sizes);
    } else {
        assert(sizes.drop_last() =~= Seq::<u64>::empty());
        reveal_with_fuel(total_of, 2);
        assert(total_of(sizes) == sizes[0]);
        assert(sizes =~= seq![entry.compressed_size]);
    }
}

/// Block records, one after the other.
pub open spec fn blocks_bytes(blocks: Seq<CompressionBlock>) -> Seq<u8> {
    blocks.map_values(
        |block: CompressionBlock| long_bytes(block.start) + long_bytes(block.end),
    ).flatten()
}

/// The method of a header as bytes: one byte in the first layout of version 8.
pub open spec fn method_bytes(version: PakVersion, method: u32) -> Seq<u8> {
    if version == PakVersion::V8A {
        seq![method as u8]
    } else {
        word_bytes(method)
    }
}

/// The time stamp of a header as bytes: version 1 alone has one.
pub open spec fn stamp_bytes(version: PakVersion, stamp: Option<u64>) -> Seq<u8> {
    if version.number() == 1 {
        long_bytes(stamp->0)
    } else {
        Seq::empty()
    }
}

/// The block table of a header as bytes: compressed files have one from version 3 on.
pub open spec fn table_bytes(
    version: PakVersion,
    method: u32,
    blocks: Seq<CompressionBlock>,
) -> Seq<u8> {
    if version.number() >= 3 && method != 0 {
        word_bytes(blocks.len() as u32) + blocks_bytes(blocks)
    } else {
        Seq::empty()
    }
}

/// The flags and the block size of a header as bytes: there from version 3 on.
pub open spec fn flags_bytes(version: PakVersion, flags: u8, block_size: u32) -> Seq<u8> {
    if version.number() >= 3 {
        seq![flags] + word_bytes(block_size)
    } else {
        Seq::empty()
    }
}

/// The header of a file as bytes.
pub open spec fn header_bytes(version: PakVersion, header: LegacyEntryView) -> Seq<u8> {
    long_bytes(header.stored_offset) + (long_bytes(header.compressed_size) + (long_bytes(
        header.uncompressed_size,
    ) + (method_bytes(version, header.compression_method) + (stamp_bytes(version, header.timestamp)
        + (header.payload_sha1 + (table_bytes(version, header.compression_method, header.blocks)
        + flags_bytes(version, header.flags, header.compression_block_size)))))))
}

/// A method stands for no compression or for a codec that is known.
pub open spec fn method_known(codecs: Seq<Option<Seq<char>>>, method: u32) -> bool {
    ||| method == 0
    ||| method <= codecs.len() && (codecs[method - 1] matches Some(name) && is_known_codec(name))
}

/// A header that a version can hold, of a file that is neither encrypted nor deleted.
pub open spec fn is_header(
    version: PakVersion,
    codecs: Seq<Option<Seq<char>>>,
    header: LegacyEntryView,
) -> bool {
    &&& header.payload_sha1.len() == 20
    &&& header.timestamp is Some <==> version.number() == 1
    &&& version == PakVersion::V8A ==> header.compression_method < 256
    &&& method_known(codecs, header.compression_method)
    &&& header.compression_method == 0 ==> header.compressed_size == header.uncompressed_size
        && header.compression_block_size == 0 && header.blocks.len() == 0
    &&& header.blocks.len() <= MAX_COMPRESSION_BLOCKS
    &&& header.blocks.len() > 1 ==> header.compression_block_size != 0
    &&& header.flags == 0
    &&& version.number() < 3 ==> header.blocks.len() == 0 && header.compression_block_size == 0
}

/// A number of eight bytes has eight bytes.
pub proof fn longs_have_a_length(value: u64)
    ensures
        long_bytes(value).len() == 8,
{
    word_values((value % 0x1_0000_0000) as u32);
    word_values((value / 0x1_0000_0000) as u32);
}

proof fn block_records_are_read_back(
    done: Seq<CompressionBlock>,
    data: Seq<u8>,
    at: int,
    blocks: Seq<CompressionBlock>,
    context: Seq<char>,
)
    requires
        stands_at(data, at, blocks_bytes(blocks)),
        data.len() <= usize::MAX,
    ensures
        blocks_bytes(blocks).len() == 16 * blocks.len(),
        blocks_at(done, data, at, blocks.len() as int, context) == Ok::<
            (Seq<CompressionBlock>, int),
            PakErrorView,
        >((done + blocks, at + 16 * blocks.len())),
    decreases blocks.len(),
{
    let write = |block: CompressionBlock| long_bytes(block.start) + long_bytes(block.end);
    if blocks.len() == 0 {
        assert(done + blocks =~= done);
    } else {
        let rest = blocks.skip(1);
        let block = blocks[0];
        let lists = blocks.map_values(write);
        assert(lists.first() == long_bytes(block.start) + long_bytes(block.end));
        assert(lists.drop_first() =~= rest.map_values(write));
        longs_have_a_length(block.start);
        longs_have_a_length(block.end);
        parts_stand(
            data,
            at,
            long_bytes(block.start) + long_bytes(block.end),
            blocks_bytes(rest),
        );
        parts_stand(data, at, long_bytes(block.start), long_bytes(block.end));
        longs_are_read_back(data, at, block.start, context);
        longs_are_read_back(data, at + 8, block.end, context);
        block_records_are_read_back(done.push(block), data, at + 16, rest, context);
        assert(done.push(block) + rest =~= done + blocks);
        assert(CompressionBlock { start: block.start, end: block.end } == block);
    }
}

proof fn method_is_read_back(
    version: PakVersion,
    data: Seq<u8>,
    at: int,
    method: u32,
    context: Seq<char>,
)
    requires
        stands_at(data, at, method_bytes(version, method)),
        data.len() <= usize::MAX,
        version == PakVersion::V8A ==> method < 256,
    ensures
        method_at(version, data, at, context) == Ok::<(u32, int), PakErrorView>(
            (method, at + method_bytes(version, method).len()),
        ),
        method_bytes(version, method).len() == if version == PakVersion::V8A {
            1nat
        } else {
            4nat
        },
{
    word_values(method);
    if version == PakVersion::V8A {
        assert(data.subrange(at, at + 1)[0] == method as u8);
    } else {
        words_are_read_back(data, at, method, context);
    }
}

proof fn stamp_is_read_back(
    version: PakVersion,
    data: Seq<u8>,
    at: int,
    stamp: Option<u64>,
    context: Seq<char>,
)
    requires
        stands_at(data, at, stamp_bytes(version, stamp)),
        data.len() <= usize::MAX,
        stamp is Some <==> version.number() == 1,
    ensures
        timestamp_at(version, data, at, context) == Ok::<(Option<u64>, int), PakErrorView>(
            (stamp, at + stamp_bytes(version, stamp).len()),
        ),
        stamp_bytes(version, stamp).len() == if version.number() == 1 {
            8nat
        } else {
            0nat
        },
{
    if version.number() == 1 {
        longs_have_a_length(stamp->0);
        longs_are_read_back(data, at, stamp->0, context);
    }
}

proof fn table_is_read_back(
    version: PakVersion,
    method: u32,
    path: Seq<char>,
    data: Seq<u8>,
    at: int,
    blocks: Seq<CompressionBlock>,
    context: Seq<char>,
)
    requires
        stands_at(data, at, table_bytes(version, method, blocks)),
        data.len() <= usize::MAX,
        blocks.len() <= MAX_COMPRESSION_BLOCKS,
        method == 0 || version.number() < 3 ==> blocks.len() == 0,
    ensures
        block_table_at(version, method, path, data, at, context) == Ok::<
            (Seq<CompressionBlock>, int),
            PakErrorView,
        >((blocks, at + table_bytes(version, method, blocks).len())),
        table_bytes(version, method, blocks).len() == if version.number() >= 3 && method != 0 {
            4 + 16 * blocks.len()
        } else {
            0nat
        },
{
    if version.number() >= 3 && method != 0 {
        let count = blocks.len() as u32;
        word_values(count);
        parts_stand(data, at, word_bytes(count), blocks_bytes(blocks));
        words_are_read_back(data, at, count, context);
        block_records_are_read_back(Seq::empty(), data, at + 4, blocks, context);
        assert(Seq::<CompressionBlock>::empty() + blocks =~= blocks);
    } else {
        assert(blocks =~= Seq::empty());
    }
}

proof fn flags_are_read_back(
    version: PakVersion,
    method: u32,
    blocks: int,
    path: Seq<char>,
    data: Seq<u8>,
    at: int,
    block_size: u32,
    context: Seq<char>,
)
    requires
        stands_at(data, at, flags_bytes(version, 0, block_size)),
        data.len() <= usize::MAX,
        method == 0 ==> block_size == 0,
        blocks > 1 ==> block_size != 0,
        version.number() < 3 ==> block_size == 0,
    ensures
        flags_at(version, method, blocks, path, data, at, context) == Ok::<
            ((u8, u32), int),
            PakErrorView,
        >(((0u8, block_size), at + flags_bytes(version, 0, block_size).len())),
        flags_bytes(version, 0, block_size).len() == if version.number() >= 3 {
            5nat
        } else {
            0nat
        },
{
    if version.number() >= 3 {
        word_values(block_size);
        parts_stand(data, at, seq![0u8], word_bytes(block_size));
        words_are_read_back(data, at + 1, block_size, context);
        assert(data.subrange(at, at + 1)[0] == 0);
    }
}

/// The header of a file is read back, wherever it stands, and has the length that
/// headers of its kind have.
pub proof fn headers_are_read_back(
    version: PakVersion,
    codecs: Seq<Option<Seq<char>>>,
    path: Seq<char>,
    data: Seq<u8>,
    at: int,
    header: LegacyEntryView,
    context: Seq<char>,
)
    requires
        is_header(version, codecs, header),
        data.len() <= usize::MAX,
        stands_at(data, at, header_bytes(version, header)),
    ensures
        legacy_entry_at(version, codecs, path, data, at, context) == Ok::<
            (LegacyEntryView, int),
            PakErrorView,
        >((header, at + header_bytes(version, header).len())),
        header_bytes(version, header).len() == header_len(
            version,
            header.compression_method != 0,
            header.blocks.len() as int,
        ),
{
    let method = method_bytes(version, header.compression_method);
    let stamp = stamp_bytes(version, header.timestamp);
    let table = table_bytes(version, header.compression_method, header.blocks);
    let flags = flags_bytes(version, header.flags, header.compression_block_size);
    let place = long_bytes(header.stored_offset);
    let stored = long_bytes(header.compressed_size);
    let size = long_bytes(header.uncompressed_size);
    let digest = header.payload_sha1;
    longs_have_a_length(header.stored_offset);
    longs_have_a_length(header.compressed_size);
    longs_have_a_length(header.uncompressed_size);
    parts_stand(
        data,
        at,
        place,
        stored + (size + (method + (stamp + (digest + (table + flags))))),
    );
    parts_stand(data, at + 8, stored, size + (method + (stamp + (digest + (table + flags)))));
    parts_stand(data, at + 16, size, method + (stamp + (digest + (table + flags))));
    parts_stand(data, at + 24, method, stamp + (digest + (table + flags)));
    let at4 = at + 24 + method.len();
    parts_stand(data, at4, stamp, digest + (table + flags));
    let at5 = at4 + stamp.len();
    parts_stand(data, at5, digest, table + flags);
    let at6 = at5 + 20;
    parts_stand(data, at6, table, flags);
    let at7 = at6 + table.len();
    longs_are_read_back(data, at, header.stored_offset, context);
    longs_are_read_back(data, at + 8, header.compressed_size, context);
    longs_are_read_back(data, at + 16, header.uncompressed_size, context);
    method_is_read_back(version, data, at + 24, header.compression_method, context);
    stamp_is_read_back(version, data, at4, header.timestamp, context);
    assert(bytes_at(data, at5, 20, context) == Ok::<(Seq<u8>, int), PakErrorView>((digest, at6)));
    assert(method_fault(codecs, header.compression_method, path) is None);
    table_is_read_back(
        version,
        header.compression_method,
        path,
        data,
        at6,
        header.blocks,
        context,
    );
    flags_are_read_back(
        version,
        header.compression_method,
        header.blocks.len() as int,
        path,
        data,
        at7,
        header.compression_block_size,
        context,
    );
}

} // verus!
