//! What a verdict on a Pak means: a Pak is found to be the output of a report exactly
//! when everything that the report says of it is so.
use vstd::prelude::*;

use super::audit::entry_with_key;
use super::ids::{folded, is_digest};
use super::report::{files_have_own_keys, own_key_finds};
use super::types::{
    AssetActionKind, AssetPlanView, FinalEntryInventoryView, MergeReportView,
    RawPreservationAssetAuditView,
};
use super::verify::{
    all_audit_errors, all_file_errors, archive_errors, audit_errors, compared_with, file_errors,
    merged_count, report_errors, reported_compression_errors, stored_count, verification,
};
use crate::digest::sha256_digest;
use crate::ordered::{ascending, get, put, put_keeps_order, put_then_get};
use crate::pak::access::verified_output;
use crate::pak::archive::{
    LogicalValidation, OutsideReadingView, PakEntryInventoryView, PakInventoryView,
};
use crate::pak::footer::SUPPORTED_PAK_VERSION;
use crate::pak::layout::unreadable_archives_are_refused;
use crate::pak::open::opened;
use crate::pak::write::compression_names_differ;
use crate::text::hex_text;

verus! {

/// A Pak holds a file under a path, letter case aside, with this size and digest.
pub open spec fn holds_file(
    entries: Seq<PakEntryInventoryView>,
    path: Seq<char>,
    size: u64,
    sha256: Seq<char>,
) -> bool {
    exists|i: int|
        0 <= i < entries.len() && folded((#[trigger] entries[i]).path) == folded(path)
            && entries[i].size == size && entries[i].sha256 == sha256
}

/// A Pak holds a file under a path, letter case aside, with this digest.
pub open spec fn holds_digest(
    entries: Seq<PakEntryInventoryView>,
    path: Seq<char>,
    sha256: Seq<char>,
) -> bool {
    exists|i: int|
        0 <= i < entries.len() && folded((#[trigger] entries[i]).path) == folded(path)
            && entries[i].sha256 == sha256
}

/// Every file that a report lists is in the Pak as the report says, and is listed
/// once.
pub open spec fn lists_the_files(
    list: Seq<FinalEntryInventoryView>,
    entries: Seq<PakEntryInventoryView>,
) -> bool {
    &&& forall|i: int|
        0 <= i < list.len() ==> holds_file(
            entries,
            (#[trigger] list[i]).path,
            list[i].size,
            list[i].sha256,
        )
    &&& forall|i: int, j: int|
        0 <= i < j < list.len() ==> folded((#[trigger] list[i]).path) != folded(
            (#[trigger] list[j]).path,
        )
}

/// Every ledger of a report passed, and the Pak holds the file that it was kept of;
/// no two ledgers are of one database or of one file.
pub open spec fn ledgers_match(
    audits: Seq<RawPreservationAssetAuditView>,
    entries: Seq<PakEntryInventoryView>,
) -> bool {
    &&& forall|i: int|
        0 <= i < audits.len() ==> {
            &&& (#[trigger] audits[i]).passed
            &&& is_digest(audits[i].entry_sha256)
            &&& is_digest(audits[i].ledger_sha256)
            &&& holds_digest(entries, audits[i].pak_entry_path, audits[i].entry_sha256)
        }
    &&& forall|i: int, j: int|
        0 <= i < j < audits.len() ==> folded((#[trigger] audits[i]).asset_path) != folded(
            (#[trigger] audits[j]).asset_path,
        ) && folded(audits[i].pak_entry_path) != folded(audits[j].pak_entry_path)
}

/// The files of a Pak are stored as the name of a compression says; an empty file is
/// stored either way.
pub open spec fn stored_as_named(inventory: PakInventoryView, name: Seq<char>) -> bool {
    ||| name == "None"@ && forall|i: int|
        0 <= i < inventory.entries.len() && (#[trigger] inventory.entries[i]).size != 0
            ==> !inventory.entries[i].compressed
    ||| name == "Oodle"@ && inventory.footer.compression_slots == seq!["Oodle"@] && forall|i: int|
        0 <= i < inventory.entries.len() && (#[trigger] inventory.entries[i]).size != 0
            ==> inventory.entries[i].compressed
}

/// How many of the actions merge a database.
pub open spec fn merges(actions: Seq<AssetPlanView>) -> nat {
    actions.filter(|asset: AssetPlanView| asset.action == AssetActionKind::MergeDatabase).len()
}

/// Everything that a report says of a Pak is so.
pub open spec fn describes(report: MergeReportView, inventory: PakInventoryView) -> bool {
    &&& inventory.archive_sha256 == report.output_sha256
    &&& inventory.entries.len() == report.output_entry_count
    &&& report.final_inventory.len() == report.output_entry_count
    &&& inventory.footer.version == report.output_pak_version
    &&& inventory.mount_point == report.output_mount_point
    &&& lists_the_files(report.final_inventory, inventory.entries)
    &&& stored_as_named(inventory, report.output_compression)
    &&& !report.output_encrypted
    &&& !report.output_signed
    &&& report.raw_preservation_audits.len() == merges(report.actions)
    &&& ledgers_match(report.raw_preservation_audits, inventory.entries)
}

proof fn found_entries_are_there(entries: Seq<PakEntryInventoryView>, key: Seq<char>)
    ensures
        entry_with_key(entries, key) matches Some(entry) ==> exists|i: int|
            0 <= i < entries.len() && #[trigger] entries[i] == entry && folded(entries[i].path)
                == key,
    decreases entries.len(),
{
    if entries.len() > 0 {
        if folded(entries.last().path) == key {
            assert(entries[entries.len() - 1] == entries.last());
        } else {
            let rest = entries.drop_last();
            found_entries_are_there(rest, key);
            if let Some(entry) = entry_with_key(rest, key) {
                let i = choose|i: int|
                    0 <= i < rest.len() && #[trigger] rest[i] == entry && folded(rest[i].path)
                        == key;
                assert(entries[i] == entry);
            }
        }
    }
}

/// The listed files that are still to be looked at, where some keys were met.
spec fn rest_listed(
    met: Seq<(Seq<char>, bool)>,
    list: Seq<FinalEntryInventoryView>,
    entries: Seq<PakEntryInventoryView>,
) -> bool {
    &&& forall|i: int|
        0 <= i < list.len() ==> get(met, folded((#[trigger] list[i]).path)) is None && (
        entry_with_key(entries, folded(list[i].path)) matches Some(actual) && actual.size
            == list[i].size && actual.sha256 == list[i].sha256)
    &&& forall|i: int, j: int|
        0 <= i < j < list.len() ==> folded((#[trigger] list[i]).path) != folded(
            (#[trigger] list[j]).path,
        )
}

proof fn file_errors_tell(
    done: Seq<Seq<char>>,
    met: Seq<(Seq<char>, bool)>,
    list: Seq<FinalEntryInventoryView>,
    entries: Seq<PakEntryInventoryView>,
)
    requires
        ascending(met),
    ensures
        all_file_errors(done, met, list, entries).len() >= done.len(),
        all_file_errors(done, met, list, entries).len() == done.len() <==> rest_listed(
            met,
            list,
            entries,
        ),
    decreases list.len(),
{
    if list.len() > 0 {
        let key = folded(list[0].path);
        let more = put(met, key, true);
        let rest = list.skip(1);
        let found = file_errors(met, list[0], entries);
        put_keeps_order(met, key, true);
        file_errors_tell(done + found, more, rest, entries);
        assert forall|i: int| 0 <= i < rest.len() implies (get(
            more,
            folded((#[trigger] rest[i]).path),
        ) is None <==> get(met, folded(list[i + 1].path)) is None && folded(list[i + 1].path)
            != key) by {
            put_then_get(met, key, true, folded(rest[i].path));
        }
        if rest_listed(met, list, entries) {
            assert(get(met, folded(list[0].path)) is None);
            assert forall|i: int| 0 <= i < rest.len() implies get(
                more,
                folded((#[trigger] rest[i]).path),
            ) is None && (entry_with_key(entries, folded(rest[i].path)) matches Some(actual)
                && actual.size == rest[i].size && actual.sha256 == rest[i].sha256) by {
                assert(rest[i] == list[i + 1]);
                assert(folded(list[0].path) != folded(list[i + 1].path));
            }
            assert forall|i: int, j: int| 0 <= i < j < rest.len() implies folded(
                (#[trigger] rest[i]).path,
            ) != folded((#[trigger] rest[j]).path) by {
                assert(rest[i] == list[i + 1] && rest[j] == list[j + 1]);
            }
        }
        if rest_listed(more, rest, entries) && found.len() == 0 {
            assert forall|i: int| 0 <= i < list.len() implies get(
                met,
                folded((#[trigger] list[i]).path),
            ) is None && (entry_with_key(entries, folded(list[i].path)) matches Some(actual)
                && actual.size == list[i].size && actual.sha256 == list[i].sha256) by {
                if i > 0 {
                    assert(rest[i - 1] == list[i]);
                }
            }
            assert forall|i: int, j: int| 0 <= i < j < list.len() implies folded(
                (#[trigger] list[i]).path,
            ) != folded((#[trigger] list[j]).path) by {
                assert(rest[j - 1] == list[j]);
                if i > 0 {
                    assert(rest[i - 1] == list[i]);
                } else {
                    assert(get(more, folded(rest[j - 1].path)) is None);
                }
            }
        }
    }
}

/// The ledgers that are still to be looked at, where some keys were met.
spec fn rest_matches(
    assets: Seq<(Seq<char>, bool)>,
    paths: Seq<(Seq<char>, bool)>,
    audits: Seq<RawPreservationAssetAuditView>,
    entries: Seq<PakEntryInventoryView>,
) -> bool {
    &&& forall|i: int|
        0 <= i < audits.len() ==> {
            &&& get(assets, folded((#[trigger] audits[i]).asset_path)) is None
            &&& get(paths, folded(audits[i].pak_entry_path)) is None
            &&& audit_stands(audits[i], entries)
        }
    &&& forall|i: int, j: int|
        0 <= i < j < audits.len() ==> folded((#[trigger] audits[i]).asset_path) != folded(
            (#[trigger] audits[j]).asset_path,
        ) && folded(audits[i].pak_entry_path) != folded(audits[j].pak_entry_path)
}

spec fn audit_stands(audit: RawPreservationAssetAuditView, entries: Seq<PakEntryInventoryView>) -> bool {
    &&& audit.passed
    &&& is_digest(audit.entry_sha256)
    &&& is_digest(audit.ledger_sha256)
    &&& entry_with_key(entries, folded(audit.pak_entry_path)) matches Some(entry) && entry.sha256
        == audit.entry_sha256
}

proof fn one_audit_tells(
    assets: Seq<(Seq<char>, bool)>,
    paths: Seq<(Seq<char>, bool)>,
    audit: RawPreservationAssetAuditView,
    entries: Seq<PakEntryInventoryView>,
)
    ensures
        audit_errors(assets, paths, audit, entries).len() == 0 <==> {
            &&& get(assets, folded(audit.asset_path)) is None
            &&& get(paths, folded(audit.pak_entry_path)) is None
            &&& audit_stands(audit, entries)
        },
{
}

proof fn audit_errors_tell(
    done: Seq<Seq<char>>,
    assets: Seq<(Seq<char>, bool)>,
    paths: Seq<(Seq<char>, bool)>,
    audits: Seq<RawPreservationAssetAuditView>,
    entries: Seq<PakEntryInventoryView>,
)
    requires
        ascending(assets),
        ascending(paths),
    ensures
        all_audit_errors(done, assets, paths, audits, entries).len() >= done.len(),
        all_audit_errors(done, assets, paths, audits, entries).len() == done.len() <==> rest_matches(
            assets,
            paths,
            audits,
            entries,
        ),
    decreases audits.len(),
{
    if audits.len() > 0 {
        let asset = folded(audits[0].asset_path);
        let path = folded(audits[0].pak_entry_path);
        let more_assets = put(assets, asset, true);
        let more_paths = put(paths, path, true);
        let rest = audits.skip(1);
        let found = audit_errors(assets, paths, audits[0], entries);
        put_keeps_order(assets, asset, true);
        put_keeps_order(paths, path, true);
        audit_errors_tell(done + found, more_assets, more_paths, rest, entries);
        one_audit_tells(assets, paths, audits[0], entries);
        assert forall|i: int| 0 <= i < rest.len() implies {
            &&& (get(more_assets, folded((#[trigger] rest[i]).asset_path)) is None <==> get(
                assets,
                folded(audits[i + 1].asset_path),
            ) is None && folded(audits[i + 1].asset_path) != asset)
            &&& (get(more_paths, folded(rest[i].pak_entry_path)) is None <==> get(
                paths,
                folded(audits[i + 1].pak_entry_path),
            ) is None && folded(audits[i + 1].pak_entry_path) != path)
        } by {
            put_then_get(assets, asset, true, folded(rest[i].asset_path));
            put_then_get(paths, path, true, folded(rest[i].pak_entry_path));
        }
        one_more_audit(assets, paths, more_assets, more_paths, audits, entries);
    }
}

proof fn one_more_audit(
    assets: Seq<(Seq<char>, bool)>,
    paths: Seq<(Seq<char>, bool)>,
    more_assets: Seq<(Seq<char>, bool)>,
    more_paths: Seq<(Seq<char>, bool)>,
    audits: Seq<RawPreservationAssetAuditView>,
    entries: Seq<PakEntryInventoryView>,
)
    requires
        audits.len() > 0,
        forall|i: int|
            0 <= i < audits.skip(1).len() ==> {
                &&& (get(more_assets, folded((#[trigger] audits.skip(1)[i]).asset_path)) is None
                    <==> get(assets, folded(audits[i + 1].asset_path)) is None && folded(
                    audits[i + 1].asset_path,
                ) != folded(audits[0].asset_path))
                &&& (get(more_paths, folded(audits.skip(1)[i].pak_entry_path)) is None <==> get(
                    paths,
                    folded(audits[i + 1].pak_entry_path),
                ) is None && folded(audits[i + 1].pak_entry_path) != folded(
                    audits[0].pak_entry_path,
                ))
            },
    ensures
        rest_matches(assets, paths, audits, entries) <==> {
            &&& get(assets, folded(audits[0].asset_path)) is None
            &&& get(paths, folded(audits[0].pak_entry_path)) is None
            &&& audit_stands(audits[0], entries)
            &&& rest_matches(more_assets, more_paths, audits.skip(1), entries)
        },
{
    let rest = audits.skip(1);
    if rest_matches(assets, paths, audits, entries) {
        assert(get(assets, folded(audits[0].asset_path)) is None);
        assert forall|i: int| 0 <= i < rest.len() implies {
            &&& get(more_assets, folded((#[trigger] rest[i]).asset_path)) is None
            &&& get(more_paths, folded(rest[i].pak_entry_path)) is None
            &&& audit_stands(rest[i], entries)
        } by {
            assert(rest[i] == audits[i + 1]);
            assert(folded(audits[0].asset_path) != folded(audits[i + 1].asset_path));
        }
        assert forall|i: int, j: int| 0 <= i < j < rest.len() implies folded(
            (#[trigger] rest[i]).asset_path,
        ) != folded((#[trigger] rest[j]).asset_path) && folded(rest[i].pak_entry_path) != folded(
            rest[j].pak_entry_path,
        ) by {
            assert(rest[i] == audits[i + 1] && rest[j] == audits[j + 1]);
        }
    }
    if get(assets, folded(audits[0].asset_path)) is None && get(
        paths,
        folded(audits[0].pak_entry_path),
    ) is None && audit_stands(audits[0], entries) && rest_matches(
        more_assets,
        more_paths,
        rest,
        entries,
    ) {
        assert forall|i: int| 0 <= i < audits.len() implies {
            &&& get(assets, folded((#[trigger] audits[i]).asset_path)) is None
            &&& get(paths, folded(audits[i].pak_entry_path)) is None
            &&& audit_stands(audits[i], entries)
        } by {
            if i > 0 {
                assert(rest[i - 1] == audits[i]);
                assert(get(more_assets, folded(rest[i - 1].asset_path)) is None);
            }
        }
        assert forall|i: int, j: int| 0 <= i < j < audits.len() implies folded(
            (#[trigger] audits[i]).asset_path,
        ) != folded((#[trigger] audits[j]).asset_path) && folded(audits[i].pak_entry_path)
            != folded(audits[j].pak_entry_path) by {
            assert(rest[j - 1] == audits[j]);
            if i > 0 {
                assert(rest[i - 1] == audits[i]);
            } else {
                assert(get(more_assets, folded(rest[j - 1].asset_path)) is None);
            }
        }
    }
}

proof fn stored_counts_tell(entries: Seq<PakEntryInventoryView>, compressed: bool)
    ensures
        stored_count(entries, compressed) >= 0,
        stored_count(entries, compressed) == 0 <==> forall|i: int|
            0 <= i < entries.len() && (#[trigger] entries[i]).size != 0 ==> entries[i].compressed
                != compressed,
    decreases entries.len(),
{
    if entries.len() > 0 {
        let rest = entries.drop_last();
        stored_counts_tell(rest, compressed);
        assert(entries[entries.len() - 1] == entries.last());
        if stored_count(rest, compressed) != 0 {
            let i = choose|i: int|
                0 <= i < rest.len() && (#[trigger] rest[i]).size != 0 && rest[i].compressed
                    == compressed;
            assert(entries[i] == rest[i]);
        } else {
            assert forall|i: int| 0 <= i < entries.len() - 1 && (#[trigger] entries[i]).size
                != 0 implies entries[i].compressed != compressed by {
                assert(entries[i] == rest[i]);
            }
        }
    }
}

proof fn compression_errors_tell(inventory: PakInventoryView, name: Seq<char>)
    ensures
        reported_compression_errors(inventory, name).len() == 0 <==> stored_as_named(
            inventory,
            name,
        ),
{
    compression_names_differ();
    stored_counts_tell(inventory.entries, true);
    stored_counts_tell(inventory.entries, false);
}

/// The databases that actions merge are counted one by one.
pub proof fn merged_databases_are_counted(actions: Seq<AssetPlanView>)
    ensures
        merged_count(actions) == merges(actions),
    decreases actions.len(),
{
    reveal(Seq::filter);
    if actions.len() > 0 {
        merged_databases_are_counted(actions.drop_last());
    }
}

proof fn archive_errors_tell(inventory: PakInventoryView, report: MergeReportView)
    ensures
        archive_errors(inventory, report).len() == 0 <==> {
            &&& inventory.archive_sha256 == report.output_sha256
            &&& inventory.entries.len() == report.output_entry_count
            &&& report.final_inventory.len() == report.output_entry_count
            &&& inventory.footer.version == report.output_pak_version
            &&& inventory.mount_point == report.output_mount_point
        },
{
}

proof fn errors_add_up(inventory: PakInventoryView, report: MergeReportView)
    ensures
        report_errors(inventory, report).len() == 0 <==> {
            &&& archive_errors(inventory, report).len() == 0
            &&& rest_listed(Seq::empty(), report.final_inventory, inventory.entries)
            &&& stored_as_named(inventory, report.output_compression)
            &&& !report.output_encrypted
            &&& !report.output_signed
            &&& report.raw_preservation_audits.len() == merges(report.actions)
            &&& rest_matches(
                Seq::empty(),
                Seq::empty(),
                report.raw_preservation_audits,
                inventory.entries,
            )
        },
{
    file_errors_tell(Seq::empty(), Seq::empty(), report.final_inventory, inventory.entries);
    audit_errors_tell(
        Seq::empty(),
        Seq::empty(),
        Seq::empty(),
        report.raw_preservation_audits,
        inventory.entries,
    );
    compression_errors_tell(inventory, report.output_compression);
    merged_databases_are_counted(report.actions);
}

/// A Pak that is found valid is the Pak that the report describes: the archive has the
/// reported digest, and so has every file that the report lists.
pub proof fn valid_paks_are_as_reported(inventory: PakInventoryView, report: MergeReportView)
    requires
        compared_with(inventory, Some(report)).valid,
    ensures
        describes(report, inventory),
{
    let entries = inventory.entries;
    errors_add_up(inventory, report);
    archive_errors_tell(inventory, report);
    let list = report.final_inventory;
    assert forall|i: int| 0 <= i < list.len() implies holds_file(
        entries,
        (#[trigger] list[i]).path,
        list[i].size,
        list[i].sha256,
    ) by {
        found_entries_are_there(entries, folded(list[i].path));
    }
    let audits = report.raw_preservation_audits;
    assert forall|i: int| 0 <= i < audits.len() implies {
        &&& (#[trigger] audits[i]).passed
        &&& is_digest(audits[i].entry_sha256)
        &&& is_digest(audits[i].ledger_sha256)
        &&& holds_digest(entries, audits[i].pak_entry_path, audits[i].entry_sha256)
    } by {
        assert(audit_stands(audits[i], entries));
        found_entries_are_there(entries, folded(audits[i].pak_entry_path));
    }
}

/// A Pak that a report describes is found valid.
pub proof fn reported_paks_are_valid(inventory: PakInventoryView, report: MergeReportView)
    requires
        files_have_own_keys(inventory.entries),
        describes(report, inventory),
    ensures
        compared_with(inventory, Some(report)).valid,
{
    let entries = inventory.entries;
    let list = report.final_inventory;
    let audits = report.raw_preservation_audits;
    assert forall|i: int| 0 <= i < list.len() implies get(
        Seq::<(Seq<char>, bool)>::empty(),
        folded((#[trigger] list[i]).path),
    ) is None && (entry_with_key(entries, folded(list[i].path)) matches Some(actual) && actual.size
        == list[i].size && actual.sha256 == list[i].sha256) by {
        assert(holds_file(entries, list[i].path, list[i].size, list[i].sha256));
        let at = choose|at: int|
            0 <= at < entries.len() && folded((#[trigger] entries[at]).path) == folded(list[i].path)
                && entries[at].size == list[i].size && entries[at].sha256 == list[i].sha256;
        own_key_finds(entries, at);
    }
    assert forall|i: int| 0 <= i < audits.len() implies {
        &&& get(Seq::<(Seq<char>, bool)>::empty(), folded((#[trigger] audits[i]).asset_path)) is None
        &&& get(Seq::<(Seq<char>, bool)>::empty(), folded(audits[i].pak_entry_path)) is None
        &&& audit_stands(audits[i], entries)
    } by {
        assert(holds_digest(entries, audits[i].pak_entry_path, audits[i].entry_sha256));
        let at = choose|at: int|
            0 <= at < entries.len() && folded((#[trigger] entries[at]).path) == folded(
                audits[i].pak_entry_path,
            ) && entries[at].sha256 == audits[i].entry_sha256;
        own_key_finds(entries, at);
    }
    archive_errors_tell(inventory, report);
    errors_add_up(inventory, report);
}

/// Only the very bytes that a report was made of are verified against it: a Pak that
/// is found valid could be read, is of version 11, has the reported digest as a whole
/// and holds the reported files.
pub proof fn verified_bytes_are_the_reported_ones(
    path: Seq<char>,
    archive: Seq<u8>,
    outside: OutsideReadingView,
    report: MergeReportView,
)
    requires
        verification(verified_output(path, archive, outside, None), Some(report)).valid,
    ensures
        hex_text(sha256_digest(archive)) == report.output_sha256,
        opened(path, archive, LogicalValidation::StrictDiscard, outside) matches Ok(found)
            && found.inventory.footer.version == SUPPORTED_PAK_VERSION && describes(
            report,
            found.inventory,
        ),
{
    let inventory = verified_output(path, archive, outside, None)->Ok_0;
    valid_paks_are_as_reported(inventory, report);
    unreadable_archives_are_refused(path, archive, LogicalValidation::StrictDiscard, outside);
}

} // verus!
