//! What an archive writer was told to write, and what is read of its archive again.
use vstd::prelude::*;

use super::access::{entry_bytes, MAX_IN_MEMORY_ENTRY_BYTES};
use super::archive::{payload_of, LogicalValidation, OutsideReadingView};
use super::error::PakErrorView;
use super::layout::{
    file_stands, files_are_recorded, listed_files_are_found, opened_files_stand_apart,
};
use super::open::{opened, PakArchiveView};
use super::paths::normal_mount;
use super::write::{
    given_files_are_written_once_in_order, order_of, the_order_of_files_does_not_matter,
    PakWriteEntryView, WriteOrderView,
};

verus! {

/// The writer carried out an order without compression: the archive has the base
/// folder of the order and its files at their places, each under its path and stored
/// as it is.
pub open spec fn stored_as_ordered(archive: PakArchiveView, order: WriteOrderView) -> bool {
    &&& archive.inventory.mount_point == order.mount_point
    &&& archive.entries.len() == order.entries.len()
    &&& forall|i: int|
        0 <= i < order.entries.len() ==> {
            let entry = (#[trigger] archive.entries[i]).1;
            &&& entry.path == order.entries[i].path
            &&& !entry.compressed
            &&& payload_of(archive.bytes, entry) == order.entries[i].data
        }
}

/// Whether a file with this path is among the files.
pub open spec fn holds_path(files: Seq<PakWriteEntryView>, path: Seq<char>) -> bool {
    exists|i: int| 0 <= i < files.len() && (#[trigger] files[i]).path == path
}

proof fn stored_files_are_read(
    path: Seq<char>,
    bytes: Seq<u8>,
    validation: LogicalValidation,
    outside: OutsideReadingView,
    found: PakArchiveView,
    at: int,
)
    requires
        opened(path, bytes, validation, outside) == Ok::<PakArchiveView, PakErrorView>(found),
        bytes.len() <= usize::MAX,
        0 <= at < found.entries.len(),
        !found.entries[at].1.compressed,
    ensures
        found.inventory.entries[at].path == found.entries[at].1.path,
        entry_bytes(found, found.entries[at].1.path, MAX_IN_MEMORY_ENTRY_BYTES) == Ok::<
            Seq<u8>,
            PakErrorView,
        >(payload_of(found.bytes, found.entries[at].1)),
{
    opened_files_stand_apart(path, bytes, validation, outside);
    listed_files_are_found(path, bytes, validation, outside, at);
    files_are_recorded(path, bytes, validation, outside, at);
    assert(file_stands(found.entries[at], found.inventory.footer.index_offset));
}

/// What is written is read back. Whatever the archive writer makes of an order, it
/// makes the same bytes of the same files in any sequence; and where it carried the
/// order out, the archive has the normal form of the base folder, exactly the given
/// files, and for each of them exactly the given bytes.
pub proof fn written_files_are_read_back(
    mount: Seq<char>,
    files: Seq<PakWriteEntryView>,
    shuffled: Seq<PakWriteEntryView>,
    writer: spec_fn(WriteOrderView) -> Seq<u8>,
    path: Seq<char>,
    validation: LogicalValidation,
    outside: OutsideReadingView,
    order: WriteOrderView,
    found: PakArchiveView,
)
    requires
        shuffled.to_multiset() == files.to_multiset(),
        order_of(mount, files) == Ok::<WriteOrderView, PakErrorView>(order),
        writer(order).len() <= usize::MAX,
        opened(path, writer(order), validation, outside) == Ok::<PakArchiveView, PakErrorView>(
            found,
        ),
        stored_as_ordered(found, order),
    ensures
        order_of(mount, shuffled) matches Ok(again) && writer(again) == writer(order),
        Ok::<Seq<char>, PakErrorView>(found.inventory.mount_point) == normal_mount(mount),
        found.inventory.entries.len() == files.len(),
        forall|i: int|
            0 <= i < files.len() ==> entry_bytes(
                found,
                (#[trigger] files[i]).path,
                MAX_IN_MEMORY_ENTRY_BYTES,
            ) == Ok::<Seq<u8>, PakErrorView>(files[i].data),
        forall|at: int|
            0 <= at < found.inventory.entries.len() ==> holds_path(
                files,
                (#[trigger] found.inventory.entries[at]).path,
            ),
{
    broadcast use vstd::seq_lib::group_to_multiset_ensures;

    the_order_of_files_does_not_matter(mount, files, shuffled);
    given_files_are_written_once_in_order(mount, files);
    opened_files_stand_apart(path, writer(order), validation, outside);
    assert(order.entries.len() == files.len()) by {
        assert(order.entries.to_multiset().len() == order.entries.len());
        assert(files.to_multiset().len() == files.len());
    }
    assert forall|i: int| 0 <= i < files.len() implies entry_bytes(
        found,
        (#[trigger] files[i]).path,
        MAX_IN_MEMORY_ENTRY_BYTES,
    ) == Ok::<Seq<u8>, PakErrorView>(files[i].data) by {
        assert(files.contains(files[i]));
        assert(order.entries.to_multiset().count(files[i]) > 0);
        assert(order.entries.contains(files[i]));
        let at = choose|at: int| 0 <= at < order.entries.len() && order.entries[at] == files[i];
        assert(found.entries[at].1.path == files[i].path);
        stored_files_are_read(path, writer(order), validation, outside, found, at);
    }
    assert forall|at: int| 0 <= at < found.inventory.entries.len() implies holds_path(
        files,
        (#[trigger] found.inventory.entries[at]).path,
    ) by {
        assert(found.entries[at].1.path == order.entries[at].path);
        stored_files_are_read(path, writer(order), validation, outside, found, at);
        assert(order.entries.contains(order.entries[at]));
        assert(files.to_multiset().count(order.entries[at]) > 0);
        assert(files.contains(order.entries[at]));
        let i = choose|i: int| 0 <= i < files.len() && files[i] == order.entries[at];
        assert(files[i].path == found.inventory.entries[at].path);
    }
}

} // verus!
