//! The footer and the lists of an archive as bytes, and that reading takes them back.
use vstd::prelude::*;
use vstd::utf8::{encode_utf8, encode_utf8_decode_utf8, encode_utf8_valid_utf8};

use super::entries::{
    primary_index, records_at, required_region_at, PrimaryIndexView,
};
use super::error::PakErrorView;
use super::footer::{
    codec_name, codec_names_from, footer_codecs, footer_of, named_slots, nul_at, prefix_len,
    region_fault, DetectedFooterView, IndexRegionView, PakFooterInfoView, PakVersion, PAK_MAGIC,
};
use super::index::{
    directories, directory_files, full_directory, hash_records, path_hashes, without_slash,
    DirectoryState, Located, MAX_ENTRY_COUNT,
};
use super::paths::{normal_mount, normal_path, sort_key_of};
use super::reader::{
    bytes_at, fstring_at, i32_at, le32, le64, u32_at, u64_at, MAX_INDEX_BYTES,
};
use super::records::{
    long_bytes, longs_are_read_back, longs_have_a_length, parts_stand, stands_at, word_bytes,
    word_values, words_are_read_back,
};
use crate::ordered::{ascending, get, put, put_keeps_order, put_then_get};
use crate::text::hex_text;

verus! {

/// A text as bytes: its length with the NUL behind it, its bytes, and the NUL.
pub open spec fn text_bytes(text: Seq<char>) -> Seq<u8> {
    word_bytes((encode_utf8(text).len() + 1) as u32) + (encode_utf8(text) + seq![0u8])
}

/// A text is read back.
pub proof fn texts_are_read_back(data: Seq<u8>, at: int, text: Seq<char>, context: Seq<char>)
    requires
        stands_at(data, at, text_bytes(text)),
        data.len() <= usize::MAX,
        encode_utf8(text).len() < MAX_INDEX_BYTES,
    ensures
        text_bytes(text).len() == encode_utf8(text).len() + 5,
        fstring_at(data, at, context) == Ok::<(Seq<char>, int), PakErrorView>(
            (text, at + text_bytes(text).len()),
        ),
{
    let bytes = encode_utf8(text);
    let length = (bytes.len() + 1) as u32;
    word_values(length);
    parts_stand(data, at, word_bytes(length), bytes + seq![0u8]);
    words_are_read_back(data, at, length, context);
    assert(data.subrange(at, at + 4) == word_bytes(length));
    assert(i32_at(data, at, context) == Ok::<(i32, int), PakErrorView>((length as i32, at + 4)));
    let run = data.subrange(at + 4, at + 4 + length);
    assert(run == bytes + seq![0u8]);
    assert(run.last() == 0);
    assert(run.drop_last() =~= bytes);
    encode_utf8_valid_utf8(text);
    encode_utf8_decode_utf8(text);
}

/// A region of the file list as bytes.
pub open spec fn region_bytes(region: IndexRegionView) -> Seq<u8> {
    word_bytes(1) + (long_bytes(region.offset) + (long_bytes(region.size) + region.expected_sha1))
}

proof fn regions_are_read_back(
    data: Seq<u8>,
    at: int,
    region: IndexRegionView,
    version: u32,
    context: Seq<char>,
)
    requires
        stands_at(data, at, region_bytes(region)),
        data.len() <= usize::MAX,
        region.expected_sha1.len() == 20,
    ensures
        region_bytes(region).len() == 40,
        required_region_at(region.name, version, data, at, context) == Ok::<
            (IndexRegionView, int),
            PakErrorView,
        >((region, at + 40)),
{
    let place = long_bytes(region.offset);
    let size = long_bytes(region.size);
    let digest = region.expected_sha1;
    word_values(1);
    longs_have_a_length(region.offset);
    longs_have_a_length(region.size);
    parts_stand(data, at, word_bytes(1), place + (size + digest));
    parts_stand(data, at + 4, place, size + digest);
    parts_stand(data, at + 12, size, digest);
    words_are_read_back(data, at, 1, context);
    longs_are_read_back(data, at + 4, region.offset, context);
    longs_are_read_back(data, at + 12, region.size, context);
    assert(bytes_at(data, at + 20, 20, context) == Ok::<(Seq<u8>, int), PakErrorView>(
        (digest, at + 40),
    ));
}

/// The primary index as bytes.
pub open spec fn primary_bytes(mount: Seq<char>, primary: PrimaryIndexView) -> Seq<u8> {
    text_bytes(mount) + (word_bytes(primary.record_count) + (long_bytes(primary.path_hash_seed) + (
    region_bytes(primary.path_hash_region) + (region_bytes(primary.directory_region) + (word_bytes(
        primary.records.len() as u32,
    ) + (primary.records + word_bytes(0)))))))
}

/// The primary index is read back: the base folder, the count, the seed, the places of
/// the two other lists, and the records.
pub proof fn primary_indexes_are_read_back(
    mount: Seq<char>,
    primary: PrimaryIndexView,
    version: u32,
)
    requires
        primary_bytes(mount, primary).len() <= usize::MAX,
        normal_mount(mount) == Ok::<Seq<char>, PakErrorView>(primary.mount_point),
        encode_utf8(mount).len() < MAX_INDEX_BYTES,
        primary.record_count <= MAX_ENTRY_COUNT,
        primary.path_hash_region.name == "path hash index"@,
        primary.directory_region.name == "full directory index"@,
        primary.path_hash_region.expected_sha1.len() == 20,
        primary.directory_region.expected_sha1.len() == 20,
        primary.records.len() <= u32::MAX,
    ensures
        primary_index(primary_bytes(mount, primary), version) == Ok::<
            PrimaryIndexView,
            PakErrorView,
        >(primary),
{
    let data = primary_bytes(mount, primary);
    let context = "primary index"@;
    let name = text_bytes(mount);
    let count = word_bytes(primary.record_count);
    let seed = long_bytes(primary.path_hash_seed);
    let hashes = region_bytes(primary.path_hash_region);
    let folders = region_bytes(primary.directory_region);
    let size = word_bytes(primary.records.len() as u32);
    let records = primary.records;
    let tail = word_bytes(0);
    word_values(primary.record_count);
    longs_have_a_length(primary.path_hash_seed);
    word_values(primary.records.len() as u32);
    word_values(0);
    assert(data.subrange(0, data.len() as int) =~= data);
    parts_stand(
        data,
        0,
        name,
        count + (seed + (hashes + (folders + (size + (records + tail))))),
    );
    texts_are_read_back(data, 0, mount, context);
    let at1 = name.len() as int;
    parts_stand(data, at1, count, seed + (hashes + (folders + (size + (records + tail)))));
    words_are_read_back(data, at1, primary.record_count, context);
    let at2 = at1 + 4;
    parts_stand(data, at2, seed, hashes + (folders + (size + (records + tail))));
    longs_are_read_back(data, at2, primary.path_hash_seed, context);
    let at3 = at2 + 8;
    parts_stand(data, at3, hashes, folders + (size + (records + tail)));
    regions_are_read_back(data, at3, primary.path_hash_region, version, context);
    let at4 = at3 + 40;
    parts_stand(data, at4, folders, size + (records + tail));
    regions_are_read_back(data, at4, primary.directory_region, version, context);
    let at5 = at4 + 40;
    parts_stand(data, at5, size, records + tail);
    records_stand_at_the_end(data, at5, records, context);
    parts_make_up_an_index(data, mount, primary, version, at1);
}

proof fn parts_make_up_an_index(
    data: Seq<u8>,
    mount: Seq<char>,
    primary: PrimaryIndexView,
    version: u32,
    at: int,
)
    requires
        normal_mount(mount) == Ok::<Seq<char>, PakErrorView>(primary.mount_point),
        primary.record_count <= MAX_ENTRY_COUNT,
        fstring_at(data, 0, "primary index"@) == Ok::<(Seq<char>, int), PakErrorView>((mount, at)),
        u32_at(data, at, "primary index"@) == Ok::<(u32, int), PakErrorView>(
            (primary.record_count, at + 4),
        ),
        u64_at(data, at + 4, "primary index"@) == Ok::<(u64, int), PakErrorView>(
            (primary.path_hash_seed, at + 12),
        ),
        required_region_at("path hash index"@, version, data, at + 12, "primary index"@) == Ok::<
            (IndexRegionView, int),
            PakErrorView,
        >((primary.path_hash_region, at + 52)),
        required_region_at("full directory index"@, version, data, at + 52, "primary index"@)
            == Ok::<(IndexRegionView, int), PakErrorView>((primary.directory_region, at + 92)),
        records_at(data, at + 92, "primary index"@) == Ok::<Seq<u8>, PakErrorView>(primary.records),
    ensures
        primary_index(data, version) == Ok::<PrimaryIndexView, PakErrorView>(primary),
{
}

proof fn records_stand_at_the_end(data: Seq<u8>, at: int, records: Seq<u8>, context: Seq<char>)
    requires
        data.len() <= usize::MAX,
        records.len() <= u32::MAX,
        stands_at(data, at, word_bytes(records.len() as u32)),
        stands_at(data, at + 4, records + word_bytes(0)),
        data.len() == at + 4 + records.len() + 4,
    ensures
        records_at(data, at, context) == Ok::<Seq<u8>, PakErrorView>(records),
{
    word_values(0);
    words_are_read_back(data, at, records.len() as u32, context);
    parts_stand(data, at + 4, records, word_bytes(0));
    assert(bytes_at(data, at + 4, records.len() as int, context) == Ok::<
        (Seq<u8>, int),
        PakErrorView,
    >((records, at + 4 + records.len())));
    words_are_read_back(data, at + 4 + records.len(), 0, context);
}

/// A hash and the position of the record that it stands for, as bytes.
pub open spec fn hash_bytes(item: (u64, usize)) -> Seq<u8> {
    long_bytes(item.0) + word_bytes(item.1 as u32)
}

/// Hashes as bytes, one after the other.
pub open spec fn hashes_bytes(items: Seq<(u64, usize)>) -> Seq<u8> {
    items.map_values(|item: (u64, usize)| hash_bytes(item)).flatten()
}

/// The map holds exactly the hashes of a list, each under its position.
pub open spec fn holds_hashes(map: Map<usize, u64>, items: Seq<(u64, usize)>) -> bool {
    &&& forall|i: int|
        0 <= i < items.len() ==> map.dom().contains((#[trigger] items[i]).1) && map[items[i].1]
            == items[i].0
    &&& forall|offset: usize| #[trigger]
        map.dom().contains(offset) ==> exists|i: int|
            0 <= i < items.len() && (#[trigger] items[i]).1 == offset
}

/// The positions of a list are positions of records, and no two are the same.
pub open spec fn name_records(items: Seq<(u64, usize)>, size: usize) -> bool {
    &&& size <= 0x7fff_ffff
    &&& forall|i: int| 0 <= i < items.len() ==> (#[trigger] items[i]).1 < size
    &&& forall|i: int, j: int|
        0 <= i < j < items.len() ==> (#[trigger] items[i]).1 != (#[trigger] items[j]).1
}

proof fn hashes_are_read_back(
    done: Map<usize, u64>,
    before: int,
    all: Seq<(u64, usize)>,
    data: Seq<u8>,
    at: int,
    size: usize,
    context: Seq<char>,
)
    requires
        0 <= before <= all.len(),
        name_records(all, size),
        holds_hashes(done, all.take(before)),
        stands_at(data, at, hashes_bytes(all.skip(before))),
        data.len() <= usize::MAX,
    ensures
        hashes_bytes(all.skip(before)).len() == 12 * (all.len() - before),
        hash_records(done, at, all.len() - before, size, data, context) matches Ok((map, next))
            && next == at + 12 * (all.len() - before) && holds_hashes(map, all),
    decreases all.len() - before,
{
    let rest = all.skip(before);
    if before == all.len() {
        assert(all.take(before) =~= all);
    } else {
        let item = all[before];
        let write = |item: (u64, usize)| hash_bytes(item);
        let lists = rest.map_values(write);
        let tail = all.skip(before + 1);
        assert(lists.first() == hash_bytes(item));
        assert(lists.drop_first() =~= tail.map_values(write));
        longs_have_a_length(item.0);
        word_values(item.1 as u32);
        parts_stand(data, at, hash_bytes(item), hashes_bytes(tail));
        parts_stand(data, at, long_bytes(item.0), word_bytes(item.1 as u32));
        longs_are_read_back(data, at, item.0, context);
        words_are_read_back(data, at + 8, item.1 as u32, context);
        assert(data.subrange(at + 8, at + 12) == word_bytes(item.1 as u32));
        assert(i32_at(data, at + 8, context) == Ok::<(i32, int), PakErrorView>(
            (item.1 as i32, at + 12),
        ));
        assert(!done.dom().contains(item.1)) by {
            if done.dom().contains(item.1) {
                let i = choose|i: int|
                    0 <= i < all.take(before).len() && (#[trigger] all.take(before)[i]).1 == item.1;
                assert(all[i].1 == all[before].1);
            }
        }
        let more = done.insert(item.1, item.0);
        let front = all.take(before + 1);
        assert forall|i: int| 0 <= i < front.len() implies more.dom().contains(
            (#[trigger] front[i]).1,
        ) && more[front[i].1] == front[i].0 by {
            if i < before {
                assert(all.take(before)[i] == front[i]);
                assert(all[i].1 != all[before].1);
            }
        }
        assert forall|offset: usize| #[trigger] more.dom().contains(offset) implies exists|i: int|
            0 <= i < front.len() && (#[trigger] front[i]).1 == offset by {
            if offset == item.1 {
                assert(front[before].1 == offset);
            } else {
                let i = choose|i: int|
                    0 <= i < all.take(before).len() && (#[trigger] all.take(before)[i]).1 == offset;
                assert(front[i].1 == offset);
            }
        }
        hashes_are_read_back(more, before + 1, all, data, at + 12, size, context);
    }
}

/// The list of hashes is read back: each hash under the position of its record.
#[verifier::rlimit(40)]
#[verifier::spinoff_prover]
pub proof fn hash_lists_are_read_back(items: Seq<(u64, usize)>, size: usize, data: Seq<u8>)
    requires
        items.len() <= u32::MAX,
        name_records(items, size),
        data == word_bytes(items.len() as u32) + (hashes_bytes(items) + word_bytes(0)),
        data.len() <= usize::MAX,
    ensures
        path_hashes(data, items.len() as u32, size) matches Ok(map) && holds_hashes(map, items),
{
    let context = "path hash index"@;
    let count = items.len() as u32;
    word_values(count);
    word_values(0);
    assert(data.subrange(0, data.len() as int) =~= data);
    parts_stand(data, 0, word_bytes(count), hashes_bytes(items) + word_bytes(0));
    parts_stand(data, 4, hashes_bytes(items), word_bytes(0));
    words_are_read_back(data, 0, count, context);
    assert(items.skip(0) =~= items);
    assert(items.take(0) =~= Seq::<(u64, usize)>::empty());
    hashes_are_read_back(Map::empty(), 0, items, data, 4, size, context);
    words_are_read_back(data, (4 + 12 * items.len()) as int, 0, context);
}

/// A slot of the footer that names a codec, or none: the name with NULs behind it.
pub open spec fn slot_bytes(name: Option<Seq<char>>) -> Seq<u8> {
    let bytes = match name {
        Some(name) => encode_utf8(name),
        None => Seq::empty(),
    };
    bytes + Seq::new((32 - bytes.len()) as nat, |i: int| 0u8)
}

/// A slot can hold a codec's name.
pub open spec fn fits_a_slot(name: Option<Seq<char>>) -> bool {
    name matches Some(name) ==> 0 < encode_utf8(name).len() <= 32 && forall|i: int|
        0 <= i < encode_utf8(name).len() ==> #[trigger] encode_utf8(name)[i] != 0
}

proof fn first_nul_is_found(slot: Seq<u8>, end: int)
    requires
        0 <= end <= slot.len(),
        forall|i: int| 0 <= i < end ==> #[trigger] slot[i] != 0,
        end < slot.len() ==> slot[end] == 0,
    ensures
        nul_at(slot) == end,
    decreases end,
{
    if end > 0 {
        let rest = slot.skip(1);
        assert(slot[0] != 0);
        assert forall|i: int| 0 <= i < end - 1 implies #[trigger] rest[i] != 0 by {
            assert(rest[i] == slot[i + 1]);
        }
        first_nul_is_found(rest, end - 1);
    }
}

proof fn slots_are_read_back(name: Option<Seq<char>>)
    requires
        fits_a_slot(name),
    ensures
        slot_bytes(name).len() == 32,
        codec_name(slot_bytes(name)) == Ok::<Option<Seq<char>>, PakErrorView>(name),
{
    let slot = slot_bytes(name);
    let bytes = match name {
        Some(name) => encode_utf8(name),
        None => Seq::empty(),
    };
    let end = bytes.len() as int;
    assert forall|i: int| 0 <= i < end implies #[trigger] slot[i] != 0 by {
        assert(slot[i] == bytes[i]);
    }
    first_nul_is_found(slot, end);
    assert forall|i: int| end <= i < slot.len() implies #[trigger] slot[i] == 0 by {}
    assert(slot.take(end) =~= bytes);
    if let Some(text) = name {
        encode_utf8_valid_utf8(text);
        encode_utf8_decode_utf8(text);
    }
}

proof fn codecs_are_read_back(
    done: Seq<Option<Seq<char>>>,
    bytes: Seq<u8>,
    at: int,
    codecs: Seq<Option<Seq<char>>>,
)
    requires
        stands_at(
            bytes,
            at,
            codecs.map_values(|name: Option<Seq<char>>| slot_bytes(name)).flatten(),
        ),
        forall|i: int| 0 <= i < codecs.len() ==> fits_a_slot(#[trigger] codecs[i]),
    ensures
        codecs.map_values(|name: Option<Seq<char>>| slot_bytes(name)).flatten().len() == 32
            * codecs.len(),
        codec_names_from(done, bytes, at, codecs.len() as int) == Ok::<
            Seq<Option<Seq<char>>>,
            PakErrorView,
        >(done + codecs),
    decreases codecs.len(),
{
    let write = |name: Option<Seq<char>>| slot_bytes(name);
    if codecs.len() == 0 {
        assert(done + codecs =~= done);
    } else {
        let rest = codecs.skip(1);
        let lists = codecs.map_values(write);
        assert(lists.first() == slot_bytes(codecs[0]));
        assert(lists.drop_first() =~= rest.map_values(write));
        slots_are_read_back(codecs[0]);
        parts_stand(bytes, at, slot_bytes(codecs[0]), rest.map_values(write).flatten());
        assert forall|i: int| 0 <= i < rest.len() implies fits_a_slot(#[trigger] rest[i]) by {
            assert(rest[i] == codecs[i + 1]);
        }
        codecs_are_read_back(done.push(codecs[0]), bytes, at + 32, rest);
        assert(done.push(codecs[0]) + rest =~= done + codecs);
    }
}

/// What stands before the magic of a footer: a key from version 7 on, and from version 4
/// on the flag of a file list that is not encrypted.
pub open spec fn front_bytes(version: PakVersion, key: Seq<u8>) -> Seq<u8> {
    if version.number() >= 7 {
        key + seq![0u8]
    } else if version.number() >= 4 {
        seq![0u8]
    } else {
        Seq::empty()
    }
}

/// What stands behind the digest of a footer: in version 9 the flag of a list that is
/// not frozen, and from version 8 on the slots of the codecs.
pub open spec fn back_bytes(version: PakVersion, codecs: Seq<Option<Seq<char>>>) -> Seq<u8> {
    (if version == PakVersion::V9 {
        seq![0u8]
    } else {
        Seq::empty()
    }) + (if version.slots() > 0 {
        codecs.map_values(|name: Option<Seq<char>>| slot_bytes(name)).flatten()
    } else {
        Seq::empty()
    })
}

/// The footer of an archive as bytes.
pub open spec fn footer_bytes(
    version: PakVersion,
    key: Seq<u8>,
    offset: u64,
    size: u64,
    digest: Seq<u8>,
    codecs: Seq<Option<Seq<char>>>,
) -> Seq<u8> {
    front_bytes(version, key) + (word_bytes(PAK_MAGIC) + (word_bytes(version.number() as u32) + (
    long_bytes(offset) + (long_bytes(size) + (digest + back_bytes(version, codecs))))))
}

/// The codecs that a footer can name: as many as the version has slots; the versions
/// without slots have three that are fixed.
pub open spec fn are_codecs_of(version: PakVersion, codecs: Seq<Option<Seq<char>>>) -> bool {
    if version.slots() == 0 {
        codecs == seq![Some("Zlib"@), Some("Gzip"@), Some("Oodle"@)]
    } else {
        &&& codecs.len() == version.slots()
        &&& forall|i: int| 0 <= i < codecs.len() ==> fits_a_slot(#[trigger] codecs[i])
    }
}

/// A footer is read back, in every version: the place and the digest of the file list,
/// and the codecs.
pub proof fn footers_are_read_back(
    version: PakVersion,
    key: Seq<u8>,
    offset: u64,
    size: u64,
    digest: Seq<u8>,
    codecs: Seq<Option<Seq<char>>>,
    footer_offset: u64,
)
    requires
        key.len() == 16,
        digest.len() == 20,
        are_codecs_of(version, codecs),
        0 < size <= MAX_INDEX_BYTES,
        offset + size <= footer_offset,
    ensures
        footer_bytes(version, key, offset, size, digest, codecs).len() == version.footer_len(),
        footer_of(
            version,
            footer_offset,
            footer_bytes(version, key, offset, size, digest, codecs),
        ) == Ok::<DetectedFooterView, PakErrorView>(
            DetectedFooterView {
                version,
                footer_offset,
                footer: PakFooterInfoView {
                    version: version.number() as u32,
                    encrypted_index: false,
                    index_offset: offset,
                    index_size: size,
                    index_sha1: hex_text(digest),
                    compression_slots: named_slots(codecs),
                },
                compression_codecs: codecs,
            },
        ),
{
    let bytes = footer_bytes(version, key, offset, size, digest, codecs);
    let front = front_bytes(version, key);
    let magic = word_bytes(PAK_MAGIC);
    let number = word_bytes(version.number() as u32);
    let place = long_bytes(offset);
    let length = long_bytes(size);
    let back = back_bytes(version, codecs);
    let at = prefix_len(version);
    assert(front.len() == at);
    word_values(PAK_MAGIC);
    word_values(version.number() as u32);
    longs_have_a_length(offset);
    longs_have_a_length(size);
    assert(bytes.subrange(0, bytes.len() as int) =~= bytes);
    parts_stand(bytes, 0, front, magic + (number + (place + (length + (digest + back)))));
    parts_stand(bytes, at, magic, number + (place + (length + (digest + back))));
    parts_stand(bytes, at + 4, number, place + (length + (digest + back)));
    parts_stand(bytes, at + 8, place, length + (digest + back));
    parts_stand(bytes, at + 16, length, digest + back);
    parts_stand(bytes, at + 24, digest, back);
    if version.number() >= 4 {
        assert(bytes.subrange(0, at)[at - 1] == 0);
    }
    word_stands(bytes, at, PAK_MAGIC);
    word_stands(bytes, at + 4, version.number() as u32);
    long_stands(bytes, at + 8, offset);
    long_stands(bytes, at + 16, size);
    let flag = if version == PakVersion::V9 {
        seq![0u8]
    } else {
        Seq::empty()
    };
    let slots = if version.slots() > 0 {
        codecs.map_values(|name: Option<Seq<char>>| slot_bytes(name)).flatten()
    } else {
        Seq::empty()
    };
    parts_stand(bytes, at + 44, flag, slots);
    if version == PakVersion::V9 {
        assert(bytes.subrange(at + 44, at + 45)[0] == 0);
    }
    if version.slots() > 0 {
        codecs_are_read_back(Seq::empty(), bytes, at + 44 + flag.len(), codecs);
        assert(Seq::<Option<Seq<char>>>::empty() + codecs =~= codecs);
    }
    assert(bytes.len() == version.footer_len());
    assert(footer_codecs(version, bytes) == Ok::<Seq<Option<Seq<char>>>, PakErrorView>(codecs));
    parts_make_up_a_footer(version, bytes, offset, size, digest, codecs, footer_offset);
}

proof fn parts_make_up_a_footer(
    version: PakVersion,
    bytes: Seq<u8>,
    offset: u64,
    size: u64,
    digest: Seq<u8>,
    codecs: Seq<Option<Seq<char>>>,
    footer_offset: u64,
)
    requires
        version.number() >= 4 ==> bytes[prefix_len(version) - 1] == 0,
        le32(bytes, prefix_len(version)) == PAK_MAGIC,
        le32(bytes, prefix_len(version) + 4) == version.number(),
        le64(bytes, prefix_len(version) + 8) == offset,
        le64(bytes, prefix_len(version) + 16) == size,
        bytes.subrange(prefix_len(version) + 24, prefix_len(version) + 44) == digest,
        version == PakVersion::V9 ==> bytes[prefix_len(version) + 44] == 0,
        footer_codecs(version, bytes) == Ok::<Seq<Option<Seq<char>>>, PakErrorView>(codecs),
        0 < size <= MAX_INDEX_BYTES,
        offset + size <= footer_offset,
    ensures
        footer_of(version, footer_offset, bytes) == Ok::<DetectedFooterView, PakErrorView>(
            DetectedFooterView {
                version,
                footer_offset,
                footer: PakFooterInfoView {
                    version: version.number() as u32,
                    encrypted_index: false,
                    index_offset: offset,
                    index_size: size,
                    index_sha1: hex_text(digest),
                    compression_slots: named_slots(codecs),
                },
                compression_codecs: codecs,
            },
        ),
{
    assert(version.number() == 9 <==> version == PakVersion::V9);
    assert(region_fault("primary index"@, offset, size, footer_offset) is None);
}

proof fn word_stands(data: Seq<u8>, at: int, value: u32)
    requires
        stands_at(data, at, word_bytes(value)),
    ensures
        le32(data, at) == value,
{
    word_values(value);
    let run = data.subrange(at, at + 4);
    assert(run[0] == data[at] && run[1] == data[at + 1] && run[2] == data[at + 2] && run[3]
        == data[at + 3]);
}

proof fn long_stands(data: Seq<u8>, at: int, value: u64)
    requires
        stands_at(data, at, long_bytes(value)),
    ensures
        le64(data, at) == value,
{
    let low = (value % 0x1_0000_0000) as u32;
    let high = (value / 0x1_0000_0000) as u32;
    word_values(low);
    word_values(high);
    parts_stand(data, at, word_bytes(low), word_bytes(high));
    word_stands(data, at, low);
    word_stands(data, at + 4, high);
}

/// A name and the position of its record, as bytes.
pub open spec fn file_bytes(file: Located) -> Seq<u8> {
    text_bytes(file.0) + word_bytes(file.1 as u32)
}

/// The files of a folder as bytes, one after the other.
pub open spec fn files_bytes(files: Seq<Located>) -> Seq<u8> {
    files.map_values(|file: Located| file_bytes(file)).flatten()
}

/// A folder and its files as bytes.
pub open spec fn folder_bytes(folder: (Seq<char>, Seq<Located>)) -> Seq<u8> {
    text_bytes(folder.0) + (word_bytes(folder.1.len() as u32) + files_bytes(folder.1))
}

/// Folders as bytes, one after the other.
pub open spec fn folders_bytes(folders: Seq<(Seq<char>, Seq<Located>)>) -> Seq<u8> {
    folders.map_values(|folder: (Seq<char>, Seq<Located>)| folder_bytes(folder)).flatten()
}

/// A file of a folder under its whole path: the folder without a slash before it, and
/// the name.
pub open spec fn whole_path(folder: Seq<char>, file: Located) -> Located {
    (without_slash(folder) + file.0, file.1)
}

/// The files of a folder under their whole paths.
pub open spec fn whole_paths(folder: (Seq<char>, Seq<Located>)) -> Seq<Located> {
    folder.1.map_values(|file: Located| whole_path(folder.0, file))
}

/// The files of all folders under their whole paths, one after the other.
pub open spec fn all_paths(folders: Seq<(Seq<char>, Seq<Located>)>) -> Seq<Located> {
    folders.map_values(|folder: (Seq<char>, Seq<Located>)| whole_paths(folder)).flatten()
}

/// Paths that may stand in a Pak and differ in more than letter case.
pub open spec fn may_be_listed(paths: Seq<Located>) -> bool {
    &&& paths.len() <= MAX_ENTRY_COUNT
    &&& forall|i: int|
        0 <= i < paths.len() ==> normal_path((#[trigger] paths[i]).0) is Ok && paths[i].1
            <= 0x7fff_ffff
    &&& forall|i: int, j: int|
        0 <= i < j < paths.len() ==> sort_key_of((#[trigger] paths[i]).0) != sort_key_of(
            (#[trigger] paths[j]).0,
        )
}

/// The texts of a folder can be stored.
pub open spec fn texts_fit(folder: (Seq<char>, Seq<Located>)) -> bool {
    &&& encode_utf8(folder.0).len() < MAX_INDEX_BYTES
    &&& forall|i: int|
        0 <= i < folder.1.len() ==> encode_utf8((#[trigger] folder.1[i]).0).len()
            < MAX_INDEX_BYTES
}

/// The first `count` paths were read.
spec fn were_read(state: DirectoryState, all: Seq<Located>, count: int) -> bool {
    &&& 0 <= count <= all.len()
    &&& state.paths == all.take(count)
    &&& ascending(state.met)
    &&& forall|i: int|
        count <= i < all.len() ==> get(state.met, sort_key_of((#[trigger] all[i]).0)) is None
}

proof fn files_are_read_back(
    state: DirectoryState,
    folder: Seq<char>,
    files: Seq<Located>,
    all: Seq<Located>,
    count: int,
    data: Seq<u8>,
    context: Seq<char>,
)
    requires
        may_be_listed(all),
        were_read(state, all, count),
        count + files.len() <= all.len(),
        forall|i: int|
            0 <= i < files.len() ==> all[count + i] == whole_path(folder, #[trigger] files[i])
                && encode_utf8(files[i].0).len() < MAX_INDEX_BYTES,
        stands_at(data, state.at, files_bytes(files)),
        data.len() <= usize::MAX,
    ensures
        directory_files(
            state,
            without_slash(folder),
            files.len() as int,
            data,
            context,
        ) matches Ok(next) && were_read(next, all, count + files.len()) && next.at == state.at
            + files_bytes(files).len(),
    decreases files.len(),
{
    if files.len() > 0 {
        let file = files[0];
        let rest = files.skip(1);
        let write = |file: Located| file_bytes(file);
        let lists = files.map_values(write);
        assert(lists.first() == file_bytes(file));
        assert(lists.drop_first() =~= rest.map_values(write));
        let name = text_bytes(file.0);
        let place = word_bytes(file.1 as u32);
        word_values(file.1 as u32);
        parts_stand(data, state.at, file_bytes(file), files_bytes(rest));
        parts_stand(data, state.at, name, place);
        texts_are_read_back(data, state.at, file.0, context);
        let at1 = state.at + name.len();
        let path = without_slash(folder) + file.0;
        assert(all[count] == all[count + 0]);
        assert(all[count] == (path, file.1));
        words_are_read_back(data, at1, file.1 as u32, context);
        assert(data.subrange(at1, at1 + 4) == place);
        assert(i32_at(data, at1, context) == Ok::<(i32, int), PakErrorView>(
            (file.1 as i32, at1 + 4),
        ));
        let key = sort_key_of(path);
        let next = DirectoryState {
            paths: state.paths.push((path, file.1)),
            met: put(state.met, key, path),
            at: at1 + 4,
        };
        put_keeps_order(state.met, key, path);
        assert(next.paths =~= all.take(count + 1));
        assert forall|i: int| count + 1 <= i < all.len() implies get(
            next.met,
            sort_key_of((#[trigger] all[i]).0),
        ) is None by {
            put_then_get(state.met, key, path, sort_key_of(all[i].0));
            assert(sort_key_of(all[count].0) != sort_key_of(all[i].0));
        }
        assert forall|i: int| 0 <= i < rest.len() implies all[count + 1 + i] == whole_path(
            folder,
            #[trigger] rest[i],
        ) && encode_utf8(rest[i].0).len() < MAX_INDEX_BYTES by {
            assert(rest[i] == files[i + 1]);
            assert(all[count + (i + 1)] == whole_path(folder, files[i + 1]));
        }
        files_are_read_back(next, folder, rest, all, count + 1, data, context);
    }
}

proof fn one_folder_is_read_back(
    state: DirectoryState,
    folder: (Seq<char>, Seq<Located>),
    all: Seq<Located>,
    count: int,
    data: Seq<u8>,
    context: Seq<char>,
)
    requires
        may_be_listed(all),
        were_read(state, all, count),
        texts_fit(folder),
        count + folder.1.len() <= all.len(),
        all.subrange(count, count + folder.1.len()) == whole_paths(folder),
        stands_at(data, state.at, folder_bytes(folder)),
        data.len() <= usize::MAX,
    ensures
        ({
            let at1 = state.at + text_bytes(folder.0).len();
            let number = folder.1.len() as u32;
            &&& fstring_at(data, state.at, context) == Ok::<(Seq<char>, int), PakErrorView>(
                (folder.0, at1),
            )
            &&& u32_at(data, at1, context) == Ok::<(u32, int), PakErrorView>((number, at1 + 4))
            &&& directory_files(
                DirectoryState { at: at1 + 4, ..state },
                without_slash(folder.0),
                number as int,
                data,
                context,
            ) matches Ok(next) && were_read(next, all, count + folder.1.len()) && next.at == state.at
                + folder_bytes(folder).len()
        }),
{
    let name = text_bytes(folder.0);
    let number = folder.1.len() as u32;
    word_values(number);
    parts_stand(data, state.at, name, word_bytes(number) + files_bytes(folder.1));
    texts_are_read_back(data, state.at, folder.0, context);
    let at1 = state.at + name.len();
    parts_stand(data, at1, word_bytes(number), files_bytes(folder.1));
    words_are_read_back(data, at1, number, context);
    assert forall|i: int| 0 <= i < folder.1.len() implies all[count + i] == whole_path(
        folder.0,
        #[trigger] folder.1[i],
    ) && encode_utf8(folder.1[i].0).len() < MAX_INDEX_BYTES by {
        assert(all.subrange(count, count + folder.1.len())[i] == whole_paths(folder)[i]);
    }
    let begun = DirectoryState { at: at1 + 4, ..state };
    files_are_read_back(begun, folder.0, folder.1, all, count, data, context);
}

proof fn folders_are_read_back(
    state: DirectoryState,
    folders: Seq<(Seq<char>, Seq<Located>)>,
    all: Seq<Located>,
    count: int,
    data: Seq<u8>,
    context: Seq<char>,
)
    requires
        may_be_listed(all),
        were_read(state, all, count),
        all.skip(count) == all_paths(folders),
        forall|k: int| 0 <= k < folders.len() ==> texts_fit(#[trigger] folders[k]),
        stands_at(data, state.at, folders_bytes(folders)),
        data.len() <= usize::MAX,
    ensures
        directories(state, folders.len() as int, data, context) matches Ok(next) && were_read(
            next,
            all,
            all.len() as int,
        ) && next.at == state.at + folders_bytes(folders).len(),
    decreases folders.len(),
{
    if folders.len() == 0 {
        assert(all.skip(count).len() == 0);
    } else {
        let folder = folders[0];
        let rest = folders.skip(1);
        first_folder_stands_first(folders);
        parts_stand(data, state.at, folder_bytes(folder), folders_bytes(rest));
        let own = whole_paths(folder);
        let after = count + folder.1.len();
        assert(all.skip(count).take(own.len() as int) =~= all.subrange(count, after));
        assert((own + all_paths(rest)).take(own.len() as int) =~= own);
        assert(all.skip(after) =~= all.skip(count).skip(own.len() as int));
        assert((own + all_paths(rest)).skip(own.len() as int) =~= all_paths(rest));
        assert(texts_fit(folders[0]));
        one_folder_is_read_back(state, folder, all, count, data, context);
        let begun = DirectoryState { at: state.at + text_bytes(folder.0).len() + 4, ..state };
        let next = directory_files(
            begun,
            without_slash(folder.0),
            folder.1.len() as int,
            data,
            context,
        )->Ok_0;
        assert forall|k: int| 0 <= k < rest.len() implies texts_fit(#[trigger] rest[k]) by {
            assert(rest[k] == folders[k + 1]);
        }
        folders_are_read_back(next, rest, all, after, data, context);
    }
}

proof fn first_folder_stands_first(folders: Seq<(Seq<char>, Seq<Located>)>)
    requires
        folders.len() > 0,
    ensures
        folders_bytes(folders) == folder_bytes(folders[0]) + folders_bytes(folders.skip(1)),
        all_paths(folders) == whole_paths(folders[0]) + all_paths(folders.skip(1)),
{
    let rest = folders.skip(1);
    let write = |folder: (Seq<char>, Seq<Located>)| folder_bytes(folder);
    let place = |folder: (Seq<char>, Seq<Located>)| whole_paths(folder);
    assert(folders.map_values(write).drop_first() =~= rest.map_values(write));
    assert(folders.map_values(place).drop_first() =~= rest.map_values(place));
}

/// The list of folders is read back: every file under its whole path, with the position
/// of its record.
pub proof fn folder_lists_are_read_back(folders: Seq<(Seq<char>, Seq<Located>)>, data: Seq<u8>)
    requires
        folders.len() <= MAX_ENTRY_COUNT,
        may_be_listed(all_paths(folders)),
        forall|k: int| 0 <= k < folders.len() ==> texts_fit(#[trigger] folders[k]),
        data == word_bytes(folders.len() as u32) + folders_bytes(folders),
        data.len() <= usize::MAX,
    ensures
        full_directory(data, all_paths(folders).len() as u32) == Ok::<Seq<Located>, PakErrorView>(
            all_paths(folders),
        ),
{
    let context = "full directory index"@;
    let count = folders.len() as u32;
    let all = all_paths(folders);
    word_values(count);
    assert(data.subrange(0, data.len() as int) =~= data);
    parts_stand(data, 0, word_bytes(count), folders_bytes(folders));
    words_are_read_back(data, 0, count, context);
    let start = DirectoryState { paths: Seq::empty(), met: Seq::empty(), at: 4 };
    assert(start.paths =~= all.take(0));
    assert(all.skip(0) =~= all);
    folders_are_read_back(start, folders, all, 0, data, context);
    assert(all.take(all.len() as int) =~= all);
}

} // verus!
