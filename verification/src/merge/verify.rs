//! Whether a merged Pak is what its report says.
use vstd::prelude::*;

use super::audit::{entry_with_key, find_entry};
use super::error::Result;
use super::ids::{folded, is_digest, join, joined, sort_key};
use super::types::{
    AssetActionKind, AssetPlan, AssetPlanView, FinalEntryInventory, FinalEntryInventoryView,
    MergeReport, MergeReportView, RawPreservationAssetAudit, RawPreservationAssetAuditView,
    VerificationResult, VerificationResultView,
};
use crate::lists::views;
use crate::ordered::{get, put, OrderedMap};
use crate::pak::access::{verified_output, verify_pak_v11};
use crate::pak::archive::{
    OutsideReading, PakEntryInventory, PakEntryInventoryView, PakInventory, PakInventoryView,
};
use crate::pak::error::{message_of, PakErrorView};
use crate::pak::write::OutputCompression;
use crate::text::{
    append_texts, cat2, cat3, cat4, cat5, chars_of, debug_text, dec, decimal, decimal_usize,
    quoted, same_text, texts, texts_push,
};

verus! {

/// A list of one text, where something holds, or of none.
pub open spec fn noted(holds: bool, text: Seq<char>) -> Seq<Seq<char>> {
    if holds {
        seq![text]
    } else {
        Seq::empty()
    }
}

fn note(list: &mut Vec<String>, holds: bool, text: String)
    ensures
        texts(final(list)@) == texts(old(list)@) + noted(holds, text@),
{
    let ghost before = texts(list@);
    if holds {
        proof {
            texts_push(list@, text);
            assert(before.push(text@) =~= before + seq![text@]);
        }
        list.push(text);
    } else {
        assert(before =~= before + Seq::<Seq<char>>::empty());
    }
}

/// How many files that are not empty are stored compressed, or not.
pub open spec fn stored_count(entries: Seq<PakEntryInventoryView>, compressed: bool) -> int
    decreases entries.len(),
{
    if entries.len() == 0 {
        0
    } else if entries.last().size != 0 && entries.last().compressed == compressed {
        stored_count(entries.drop_last(), compressed) + 1
    } else {
        stored_count(entries.drop_last(), compressed)
    }
}

fn count_stored(entries: &Vec<PakEntryInventory>, compressed: bool) -> (result: usize)
    ensures
        result == stored_count(views(entries@), compressed),
{
    let ghost all = views(entries@);
    let mut count: usize = 0;
    let mut at: usize = 0;
    assert(all.take(0) =~= Seq::<PakEntryInventoryView>::empty());
    while at < entries.len()
        invariant
            at <= entries@.len(),
            count <= at,
            all == views(entries@),
            count == stored_count(all.take(at as int), compressed),
        decreases entries.len() - at,
    {
        proof {
            assert(all.take(at as int + 1).drop_last() =~= all.take(at as int));
            assert(all.take(at as int + 1).last() == entries@[at as int]@);
        }
        if entries[at].size != 0 && entries[at].compressed == compressed {
            count += 1;
        }
        at += 1;
    }
    assert(all.take(at as int) =~= all);
    count
}

/// How `{:?}` prints a list of texts.
pub open spec fn debug_list(list: Seq<Seq<char>>) -> Seq<char> {
    "["@ + joined(quoted_texts(list), ", "@) + "]"@
}

pub open spec fn quoted_texts(list: Seq<Seq<char>>) -> Seq<Seq<char>> {
    list.map_values(|text: Seq<char>| debug_text(text))
}

fn quote_list(list: &Vec<String>) -> (result: String)
    ensures
        result@ == debug_list(texts(list@)),
{
    let ghost all = quoted_texts(texts(list@));
    let mut parts: Vec<String> = Vec::new();
    let mut at: usize = 0;
    assert(texts(parts@) =~= all.take(0));
    while at < list.len()
        invariant
            at <= list@.len(),
            all == quoted_texts(texts(list@)),
            texts(parts@) == all.take(at as int),
        decreases list.len() - at,
    {
        let part = quoted(list[at].as_str());
        proof {
            texts_push(parts@, part);
            assert(texts(list@)[at as int] == list@[at as int]@);
            assert(all[at as int] == part@);
            assert(all.take(at as int + 1) =~= all.take(at as int).push(part@));
        }
        parts.push(part);
        at += 1;
    }
    assert(all.take(at as int) =~= all);
    cat3("[", join(&parts, ", ").as_str(), "]")
}

/// What is wrong with how the files of an output are stored.
pub open spec fn compression_errors(inventory: PakInventoryView, expected: OutputCompression) -> Seq<
    Seq<char>,
> {
    match expected {
        OutputCompression::Uncompressed => noted(
            stored_count(inventory.entries, true) != 0,
            "output was expected to be uncompressed, but "@ + dec(
                stored_count(inventory.entries, true) as nat,
            ) + " files are compressed"@,
        ),
        OutputCompression::Oodle => noted(
            inventory.footer.compression_slots != seq!["Oodle"@],
            "output does not declare only Oodle compression: "@ + debug_list(
                inventory.footer.compression_slots,
            ),
        ) + noted(
            stored_count(inventory.entries, false) != 0,
            "Oodle output contains "@ + dec(stored_count(inventory.entries, false) as nat)
                + " non-empty uncompressed files"@,
        ),
    }
}

fn is_only_oodle(slots: &Vec<String>) -> (result: bool)
    ensures
        result == (texts(slots@) == seq!["Oodle"@]),
{
    if slots.len() != 1 {
        assert(texts(slots@).len() != seq!["Oodle"@].len());
        return false;
    }
    let only = same_text(slots[0].as_str(), "Oodle");
    proof {
        assert(texts(slots@)[0] == slots@[0]@);
        assert(seq!["Oodle"@][0] == "Oodle"@);
        if only {
            assert(texts(slots@) =~= seq!["Oodle"@]);
        }
    }
    only
}

pub fn output_compression_errors(inventory: &PakInventory, expected: OutputCompression) -> (result: Vec<
    String,
>)
    ensures
        texts(result@) == compression_errors(inventory@, expected),
{
    let mut errors: Vec<String> = Vec::new();
    assert(texts(errors@) =~= Seq::<Seq<char>>::empty());
    match expected {
        OutputCompression::Uncompressed => {
            let count: usize = count_stored(&inventory.entries, true);
            note(
                &mut errors,
                count != 0,
                cat3(
                    "output was expected to be uncompressed, but ",
                    decimal_usize(count).as_str(),
                    " files are compressed",
                ),
            );
            proof {
                let wanted = compression_errors(inventory@, expected);
                assert(Seq::<Seq<char>>::empty() + wanted =~= wanted);
            }
        },
        OutputCompression::Oodle => {
            let slots = &inventory.footer.compression_slots;
            note(
                &mut errors,
                !is_only_oodle(slots),
                cat2(
                    "output does not declare only Oodle compression: ",
                    quote_list(slots).as_str(),
                ),
            );
            let count: usize = count_stored(&inventory.entries, false);
            note(
                &mut errors,
                count != 0,
                cat3(
                    "Oodle output contains ",
                    decimal_usize(count).as_str(),
                    " non-empty uncompressed files",
                ),
            );
            proof {
                assert(texts(errors@) =~= compression_errors(inventory@, expected));
            }
        },
    }
    errors
}

fn is_digest_text(text: &str) -> (result: bool)
    ensures
        result == is_digest(text@),
{
    let chars = chars_of(text);
    if chars.len() != 64 {
        return false;
    }
    let mut at: usize = 0;
    while at < chars.len()
        invariant
            at <= chars@.len(),
            chars@ == text@,
            chars@.len() == 64,
            forall|i: int|
                0 <= i < at ==> '0' <= #[trigger] text@[i] <= '9' || 'a' <= text@[i] <= 'f',
        decreases chars.len() - at,
    {
        let ch = chars[at];
        let valid = ('0' <= ch && ch <= '9') || ('a' <= ch && ch <= 'f');
        if !valid {
            assert(!('0' <= text@[at as int] <= '9' || 'a' <= text@[at as int] <= 'f'));
            return false;
        }
        at += 1;
    }
    true
}

/// What is wrong with the record of one ledger.
pub open spec fn audit_errors(
    assets: Seq<(Seq<char>, bool)>,
    paths: Seq<(Seq<char>, bool)>,
    audit: RawPreservationAssetAuditView,
    entries: Seq<PakEntryInventoryView>,
) -> Seq<Seq<char>> {
    noted(
        get(assets, folded(audit.asset_path)) is Some,
        "duplicate unchanged-data check for file group: "@ + audit.asset_path,
    ) + noted(
        get(paths, folded(audit.pak_entry_path)) is Some,
        "duplicate unchanged-data check for Pak file: "@ + audit.pak_entry_path,
    ) + noted(!audit.passed, "unchanged-data check did not pass: "@ + audit.asset_path) + noted(
        !is_digest(audit.entry_sha256),
        "unchanged-data Pak file SHA-256 is not valid for "@ + audit.asset_path,
    ) + noted(
        !is_digest(audit.ledger_sha256),
        "unchanged-data check record SHA-256 is not valid for "@ + audit.asset_path,
    ) + audit_entry_errors(audit, entries)
}

pub open spec fn audit_entry_errors(
    audit: RawPreservationAssetAuditView,
    entries: Seq<PakEntryInventoryView>,
) -> Seq<Seq<char>> {
    match entry_with_key(entries, folded(audit.pak_entry_path)) {
        Some(entry) => noted(
            entry.sha256 != audit.entry_sha256,
            "unchanged-data Pak file SHA-256 mismatch for "@ + audit.pak_entry_path + ": report "@
                + audit.entry_sha256 + (", Pak "@ + entry.sha256),
        ),
        None => seq![
            "a Pak file required by the unchanged-data check is missing: "@ + audit.pak_entry_path,
        ],
    }
}

/// What is wrong with the records of all ledgers.
pub open spec fn all_audit_errors(
    done: Seq<Seq<char>>,
    assets: Seq<(Seq<char>, bool)>,
    paths: Seq<(Seq<char>, bool)>,
    audits: Seq<RawPreservationAssetAuditView>,
    entries: Seq<PakEntryInventoryView>,
) -> Seq<Seq<char>>
    decreases audits.len(),
{
    if audits.len() == 0 {
        done
    } else {
        all_audit_errors(
            done + audit_errors(assets, paths, audits[0], entries),
            put(assets, folded(audits[0].asset_path), true),
            put(paths, folded(audits[0].pak_entry_path), true),
            audits.skip(1),
            entries,
        )
    }
}

fn list_audit_entry_errors(audit: &RawPreservationAssetAudit, entries: &Vec<PakEntryInventory>) -> (result:
    Vec<String>)
    ensures
        texts(result@) == audit_entry_errors(audit@, views(entries@)),
{
    let mut errors: Vec<String> = Vec::new();
    assert(texts(errors@) =~= Seq::<Seq<char>>::empty());
    let path = audit.pak_entry_path.as_str();
    match find_entry(entries, sort_key(path).as_str()) {
        Some(entry) => {
            note(
                &mut errors,
                !same_text(entry.sha256.as_str(), audit.entry_sha256.as_str()),
                cat5(
                    "unchanged-data Pak file SHA-256 mismatch for ",
                    path,
                    ": report ",
                    audit.entry_sha256.as_str(),
                    cat2(", Pak ", entry.sha256.as_str()).as_str(),
                ),
            );
            proof {
                let wanted = audit_entry_errors(audit@, views(entries@));
                assert(Seq::<Seq<char>>::empty() + wanted =~= wanted);
            }
        },
        None => {
            errors.push(
                cat2("a Pak file required by the unchanged-data check is missing: ", path),
            );
            assert(texts(errors@) =~= audit_entry_errors(audit@, views(entries@)));
        },
    }
    errors
}

fn list_audit_errors(
    assets: &OrderedMap<bool>,
    paths: &OrderedMap<bool>,
    audit: &RawPreservationAssetAudit,
    entries: &Vec<PakEntryInventory>,
) -> (result: Vec<String>)
    requires
        assets.well_formed(),
        paths.well_formed(),
    ensures
        texts(result@) == audit_errors(assets@, paths@, audit@, views(entries@)),
{
    let mut errors: Vec<String> = Vec::new();
    assert(texts(errors@) =~= Seq::<Seq<char>>::empty());
    let asset_path = audit.asset_path.as_str();
    let repeated_asset = assets.find(sort_key(asset_path).as_str()).is_some();
    let repeated_path = paths.find(sort_key(audit.pak_entry_path.as_str()).as_str()).is_some();
    note(
        &mut errors,
        repeated_asset,
        cat2("duplicate unchanged-data check for file group: ", asset_path),
    );
    note(
        &mut errors,
        repeated_path,
        cat2("duplicate unchanged-data check for Pak file: ", audit.pak_entry_path.as_str()),
    );
    note(
        &mut errors,
        !audit.passed,
        cat2("unchanged-data check did not pass: ", asset_path),
    );
    note(
        &mut errors,
        !is_digest_text(audit.entry_sha256.as_str()),
        cat2("unchanged-data Pak file SHA-256 is not valid for ", asset_path),
    );
    note(
        &mut errors,
        !is_digest_text(audit.ledger_sha256.as_str()),
        cat2("unchanged-data check record SHA-256 is not valid for ", asset_path),
    );
    append_texts(&mut errors, &list_audit_entry_errors(audit, entries));
    proof {
        assert(texts(errors@) =~= audit_errors(assets@, paths@, audit@, views(entries@)));
    }
    errors
}

/// What is wrong with the records of a report's ledgers.
pub fn raw_audit_inventory_errors(audits: &Vec<RawPreservationAssetAudit>, inventory: &PakInventory) -> (result:
    Vec<String>)
    ensures
        texts(result@) == all_audit_errors(
            Seq::empty(),
            Seq::empty(),
            Seq::empty(),
            views(audits@),
            inventory@.entries,
        ),
{
    let ghost all = views(audits@);
    let ghost entries = inventory@.entries;
    let mut errors: Vec<String> = Vec::new();
    let mut assets: OrderedMap<bool> = OrderedMap::new();
    let mut paths: OrderedMap<bool> = OrderedMap::new();
    let mut at: usize = 0;
    proof {
        assert(texts(errors@) =~= Seq::<Seq<char>>::empty());
        assert(all.skip(0) =~= all);
    }
    while at < audits.len()
        invariant
            at <= audits@.len(),
            all == views(audits@),
            entries == inventory@.entries,
            assets.well_formed(),
            paths.well_formed(),
            all_audit_errors(Seq::empty(), Seq::empty(), Seq::empty(), all, entries)
                == all_audit_errors(
                texts(errors@),
                assets@,
                paths@,
                all.skip(at as int),
                entries,
            ),
        decreases audits.len() - at,
    {
        proof {
            assert(all.skip(at as int)[0] == audits@[at as int]@);
            assert(all.skip(at as int).skip(1) =~= all.skip(at as int + 1));
        }
        append_texts(
            &mut errors,
            &list_audit_errors(&assets, &paths, &audits[at], &inventory.entries),
        );
        assets.insert(sort_key(audits[at].asset_path.as_str()), true);
        paths.insert(sort_key(audits[at].pak_entry_path.as_str()), true);
        at += 1;
    }
    errors
}

/// What is wrong with one file of a report's inventory.
pub open spec fn file_errors(
    met: Seq<(Seq<char>, bool)>,
    entry: FinalEntryInventoryView,
    entries: Seq<PakEntryInventoryView>,
) -> Seq<Seq<char>> {
    if get(met, folded(entry.path)) is Some {
        seq!["report inventory contains a duplicate path: "@ + entry.path]
    } else {
        match entry_with_key(entries, folded(entry.path)) {
            None => seq!["a file listed in the report is missing: "@ + entry.path],
            Some(actual) => noted(
                !(actual.size == entry.size && actual.sha256 == entry.sha256),
                "file check failed for "@ + entry.path + ": expected "@ + dec(entry.size as nat) + (
                " bytes/"@ + entry.sha256 + ", got "@ + dec(actual.size as nat) + (" bytes/"@
                    + actual.sha256)),
            ),
        }
    }
}

/// What is wrong with a report's inventory.
pub open spec fn all_file_errors(
    done: Seq<Seq<char>>,
    met: Seq<(Seq<char>, bool)>,
    list: Seq<FinalEntryInventoryView>,
    entries: Seq<PakEntryInventoryView>,
) -> Seq<Seq<char>>
    decreases list.len(),
{
    if list.len() == 0 {
        done
    } else {
        all_file_errors(
            done + file_errors(met, list[0], entries),
            put(met, folded(list[0].path), true),
            list.skip(1),
            entries,
        )
    }
}

fn list_file_errors(met: &OrderedMap<bool>, entry: &FinalEntryInventory, entries: &Vec<PakEntryInventory>) -> (result:
    Vec<String>)
    requires
        met.well_formed(),
    ensures
        texts(result@) == file_errors(met@, entry@, views(entries@)),
{
    let mut errors: Vec<String> = Vec::new();
    assert(texts(errors@) =~= Seq::<Seq<char>>::empty());
    let key = sort_key(entry.path.as_str());
    if met.find(key.as_str()).is_some() {
        errors.push(cat2("report inventory contains a duplicate path: ", entry.path.as_str()));
        assert(texts(errors@) =~= file_errors(met@, entry@, views(entries@)));
        return errors;
    }
    match find_entry(entries, key.as_str()) {
        None => {
            errors.push(cat2("a file listed in the report is missing: ", entry.path.as_str()));
            assert(texts(errors@) =~= file_errors(met@, entry@, views(entries@)));
        },
        Some(actual) => {
            let same = actual.size == entry.size && same_text(
                actual.sha256.as_str(),
                entry.sha256.as_str(),
            );
            let found = cat2(" bytes/", actual.sha256.as_str());
            let rest = cat5(
                " bytes/",
                entry.sha256.as_str(),
                ", got ",
                decimal(actual.size).as_str(),
                found.as_str(),
            );
            note(
                &mut errors,
                !same,
                cat5(
                    "file check failed for ",
                    entry.path.as_str(),
                    ": expected ",
                    decimal(entry.size).as_str(),
                    rest.as_str(),
                ),
            );
            proof {
                let wanted = file_errors(met@, entry@, views(entries@));
                assert(Seq::<Seq<char>>::empty() + wanted =~= wanted);
            }
        },
    }
    errors
}

fn check_files(list: &Vec<FinalEntryInventory>, inventory: &PakInventory) -> (result: Vec<String>)
    ensures
        texts(result@) == all_file_errors(
            Seq::empty(),
            Seq::empty(),
            views(list@),
            inventory@.entries,
        ),
{
    let ghost all = views(list@);
    let ghost entries = inventory@.entries;
    let mut errors: Vec<String> = Vec::new();
    let mut met: OrderedMap<bool> = OrderedMap::new();
    let mut at: usize = 0;
    proof {
        assert(texts(errors@) =~= Seq::<Seq<char>>::empty());
        assert(all.skip(0) =~= all);
    }
    while at < list.len()
        invariant
            at <= list@.len(),
            all == views(list@),
            entries == inventory@.entries,
            met.well_formed(),
            all_file_errors(Seq::empty(), Seq::empty(), all, entries) == all_file_errors(
                texts(errors@),
                met@,
                all.skip(at as int),
                entries,
            ),
        decreases list.len() - at,
    {
        proof {
            assert(all.skip(at as int)[0] == list@[at as int]@);
            assert(all.skip(at as int).skip(1) =~= all.skip(at as int + 1));
        }
        append_texts(&mut errors, &list_file_errors(&met, &list[at], &inventory.entries));
        met.insert(sort_key(list[at].path.as_str()), true);
        at += 1;
    }
    errors
}

/// How many databases a report's actions merge.
pub open spec fn merged_count(actions: Seq<AssetPlanView>) -> int
    decreases actions.len(),
{
    if actions.len() == 0 {
        0
    } else if actions.last().action == AssetActionKind::MergeDatabase {
        merged_count(actions.drop_last()) + 1
    } else {
        merged_count(actions.drop_last())
    }
}

fn count_merged(actions: &Vec<AssetPlan>) -> (result: usize)
    ensures
        result == merged_count(views(actions@)),
{
    let ghost all = views(actions@);
    let mut count: usize = 0;
    let mut at: usize = 0;
    assert(all.take(0) =~= Seq::<AssetPlanView>::empty());
    while at < actions.len()
        invariant
            at <= actions@.len(),
            count <= at,
            all == views(actions@),
            count == merged_count(all.take(at as int)),
        decreases actions.len() - at,
    {
        proof {
            assert(all.take(at as int + 1).drop_last() =~= all.take(at as int));
            assert(all.take(at as int + 1).last() == actions@[at as int]@);
        }
        match actions[at].action {
            AssetActionKind::MergeDatabase => {
                count += 1;
            },
            _ => {},
        }
        at += 1;
    }
    assert(all.take(at as int) =~= all);
    count
}

/// The databases that are merged may be counted from the front as well.
pub proof fn merged_count_of_first(actions: Seq<AssetPlanView>)
    requires
        actions.len() > 0,
    ensures
        merged_count(actions) == merged_count(actions.skip(1)) + (if actions[0].action
            == AssetActionKind::MergeDatabase {
            1int
        } else {
            0int
        }),
    decreases actions.len(),
{
    if actions.len() > 1 {
        let most = actions.drop_last();
        merged_count_of_first(most);
        assert(most.skip(1) =~= actions.skip(1).drop_last());
        assert(actions.skip(1).last() == actions.last());
    } else {
        assert(actions.drop_last() =~= Seq::empty());
        assert(actions.skip(1) =~= Seq::empty());
    }
}

/// What a report says of the archive as a whole that is not so.
pub open spec fn archive_errors(inventory: PakInventoryView, report: MergeReportView) -> Seq<Seq<char>> {
    noted(
        inventory.archive_sha256 != report.output_sha256,
        "Pak SHA-256 mismatch: expected "@ + report.output_sha256 + ", got "@
            + inventory.archive_sha256,
    ) + noted(
        inventory.entries.len() != report.output_entry_count,
        "file count mismatch: expected "@ + dec(report.output_entry_count as nat) + ", got "@ + dec(
            inventory.entries.len(),
        ),
    ) + noted(
        report.final_inventory.len() != report.output_entry_count,
        "report inventory count mismatch: report declares "@ + dec(
            report.output_entry_count as nat,
        ) + " entries but lists "@ + dec(report.final_inventory.len()),
    ) + noted(
        inventory.footer.version != report.output_pak_version,
        "Pak version mismatch: expected "@ + dec(report.output_pak_version as nat) + ", got "@
            + dec(inventory.footer.version as nat),
    ) + noted(
        inventory.mount_point != report.output_mount_point,
        "Pak root path mismatch: expected "@ + debug_text(report.output_mount_point) + ", got "@
            + debug_text(inventory.mount_point),
    )
}

fn list_archive_errors(inventory: &PakInventory, report: &MergeReport) -> (result: Vec<String>)
    ensures
        texts(result@) == archive_errors(inventory@, report@),
{
    let mut errors: Vec<String> = Vec::new();
    proof {
        assert(texts(errors@) =~= Seq::<Seq<char>>::empty());
        assert(inventory@.entries.len() == inventory.entries@.len());
        assert(report@.final_inventory.len() == report.final_inventory@.len());
    }
    note(
        &mut errors,
        !same_text(inventory.archive_sha256.as_str(), report.output_sha256.as_str()),
        cat4(
            "Pak SHA-256 mismatch: expected ",
            report.output_sha256.as_str(),
            ", got ",
            inventory.archive_sha256.as_str(),
        ),
    );
    note(
        &mut errors,
        inventory.entries.len() != report.output_entry_count,
        cat4(
            "file count mismatch: expected ",
            decimal_usize(report.output_entry_count).as_str(),
            ", got ",
            decimal_usize(inventory.entries.len()).as_str(),
        ),
    );
    note(
        &mut errors,
        report.final_inventory.len() != report.output_entry_count,
        cat4(
            "report inventory count mismatch: report declares ",
            decimal_usize(report.output_entry_count).as_str(),
            " entries but lists ",
            decimal_usize(report.final_inventory.len()).as_str(),
        ),
    );
    note(
        &mut errors,
        inventory.footer.version != report.output_pak_version,
        cat4(
            "Pak version mismatch: expected ",
            decimal(report.output_pak_version as u64).as_str(),
            ", got ",
            decimal(inventory.footer.version as u64).as_str(),
        ),
    );
    note(
        &mut errors,
        !same_text(inventory.mount_point.as_str(), report.output_mount_point.as_str()),
        cat4(
            "Pak root path mismatch: expected ",
            quoted(report.output_mount_point.as_str()).as_str(),
            ", got ",
            quoted(inventory.mount_point.as_str()).as_str(),
        ),
    );
    proof {
        assert(texts(errors@) =~= archive_errors(inventory@, report@));
    }
    errors
}

/// What a report says of the compression that is not so.
pub open spec fn reported_compression_errors(inventory: PakInventoryView, name: Seq<char>) -> Seq<
    Seq<char>,
> {
    if name == "None"@ {
        compression_errors(inventory, OutputCompression::Uncompressed)
    } else if name == "Oodle"@ {
        compression_errors(inventory, OutputCompression::Oodle)
    } else {
        seq!["report declares an unsupported output compression method: "@ + name]
    }
}

fn list_reported_compression_errors(inventory: &PakInventory, name: &str) -> (result: Vec<String>)
    ensures
        texts(result@) == reported_compression_errors(inventory@, name@),
{
    if same_text(name, "None") {
        return output_compression_errors(inventory, OutputCompression::Uncompressed);
    }
    if same_text(name, "Oodle") {
        return output_compression_errors(inventory, OutputCompression::Oodle);
    }
    let mut errors: Vec<String> = Vec::new();
    errors.push(cat2("report declares an unsupported output compression method: ", name));
    assert(texts(errors@) =~= seq![
        "report declares an unsupported output compression method: "@ + name@,
    ]);
    errors
}

/// Everything that a report says of a Pak and that is not so.
pub open spec fn report_errors(inventory: PakInventoryView, report: MergeReportView) -> Seq<Seq<char>> {
    archive_errors(inventory, report) + all_file_errors(
        Seq::empty(),
        Seq::empty(),
        report.final_inventory,
        inventory.entries,
    ) + reported_compression_errors(inventory, report.output_compression) + noted(
        report.output_encrypted || report.output_signed,
        "report attributes do not describe an unencrypted, unsigned output"@,
    ) + noted(
        report.raw_preservation_audits.len() != merged_count(report.actions),
        "unchanged-data check count mismatch: expected "@ + dec(
            merged_count(report.actions) as nat,
        ) + ", report has "@ + dec(report.raw_preservation_audits.len()),
    ) + all_audit_errors(
        Seq::empty(),
        Seq::empty(),
        Seq::empty(),
        report.raw_preservation_audits,
        inventory.entries,
    )
}

fn list_report_errors(inventory: &PakInventory, report: &MergeReport) -> (result: Vec<String>)
    ensures
        texts(result@) == report_errors(inventory@, report@),
{
    let mut errors = list_archive_errors(inventory, report);
    append_texts(&mut errors, &check_files(&report.final_inventory, inventory));
    append_texts(
        &mut errors,
        &list_reported_compression_errors(inventory, report.output_compression.as_str()),
    );
    note(
        &mut errors,
        report.output_encrypted || report.output_signed,
        "report attributes do not describe an unencrypted, unsigned output".to_owned(),
    );
    let expected: usize = count_merged(&report.actions);
    let found: usize = report.raw_preservation_audits.len();
    assert(report@.raw_preservation_audits.len() == found);
    note(
        &mut errors,
        found != expected,
        cat4(
            "unchanged-data check count mismatch: expected ",
            decimal_usize(expected).as_str(),
            ", report has ",
            decimal_usize(found).as_str(),
        ),
    );
    append_texts(
        &mut errors,
        &raw_audit_inventory_errors(&report.raw_preservation_audits, inventory),
    );
    errors
}

/// What is known of a Pak that could be read.
pub open spec fn compared_with(inventory: PakInventoryView, report: Option<MergeReportView>) -> VerificationResultView {
    let errors = match report {
        Some(report) => report_errors(inventory, report),
        None => Seq::empty(),
    };
    VerificationResultView {
        valid: errors.len() == 0,
        pak_sha256: inventory.archive_sha256,
        entry_count: inventory.entries.len() as usize,
        errors,
        warnings: match report {
            Some(report) => noted(
                !report.full_reencode_forbidden,
                "report does not assert fullReencodeForbidden"@,
            ),
            None => Seq::empty(),
        },
    }
}

/// What is known of a Pak.
pub open spec fn verification(
    found: std::result::Result<PakInventoryView, PakErrorView>,
    report: Option<MergeReportView>,
) -> VerificationResultView {
    match found {
        Ok(inventory) => compared_with(inventory, report),
        Err(error) => VerificationResultView {
            valid: false,
            pak_sha256: Seq::empty(),
            entry_count: 0,
            errors: seq![message_of(error)],
            warnings: Seq::empty(),
        },
    }
}

/// Compares a Pak that could be read with a report.
pub fn compare_with_report(inventory: PakInventory, report: Option<&MergeReport>) -> (result:
    VerificationResult)
    ensures
        result@ == compared_with(
            inventory@,
            (match report {
                Some(report) => Some(report@),
                None => None,
            }),
        ),
{
    let mut errors: Vec<String> = Vec::new();
    let mut warnings: Vec<String> = Vec::new();
    proof {
        assert(texts(errors@) =~= Seq::<Seq<char>>::empty());
        assert(texts(warnings@) =~= Seq::<Seq<char>>::empty());
    }
    match report {
        Some(report) => {
            errors = list_report_errors(&inventory, report);
            note(
                &mut warnings,
                !report.full_reencode_forbidden,
                "report does not assert fullReencodeForbidden".to_owned(),
            );
            proof {
                let wanted = noted(
                    !report.full_reencode_forbidden,
                    "report does not assert fullReencodeForbidden"@,
                );
                assert(Seq::<Seq<char>>::empty() + wanted =~= wanted);
            }
        },
        None => {},
    }
    proof {
        assert(texts(errors@).len() == errors@.len());
        assert(inventory@.entries.len() == inventory.entries@.len());
    }
    let entry_count: usize = inventory.entries.len();
    VerificationResult {
        valid: errors.len() == 0,
        pak_sha256: inventory.archive_sha256,
        entry_count,
        errors,
        warnings,
    }
}

/// Verifies a Pak, and compares it with a report where there is one. What is wrong
/// is told in the result: no Pak makes this fail.
pub fn verify(
    path: &str,
    archive: &[u8],
    outside: &OutsideReading,
    expected_report: Option<&MergeReport>,
) -> (result: Result<VerificationResult>)
    ensures
        result matches Ok(found) && found@ == verification(
            verified_output(path@, archive@, outside@, None),
            (match expected_report {
                Some(report) => Some(report@),
                None => None,
            }),
        ),
{
    match verify_pak_v11(path, archive, outside, None) {
        Ok(inventory) => Ok(compare_with_report(inventory, expected_report)),
        Err(error) => {
            let mut errors: Vec<String> = Vec::new();
            errors.push(error.message());
            let warnings: Vec<String> = Vec::new();
            let pak_sha256 = String::new();
            proof {
                assert(texts(errors@) =~= seq![message_of(error@)]);
                assert(texts(warnings@) =~= Seq::<Seq<char>>::empty());
                assert(pak_sha256@ =~= Seq::<char>::empty());
            }
            Ok(
                VerificationResult {
                    valid: false,
                    pak_sha256,
                    entry_count: 0,
                    errors,
                    warnings,
                },
            )
        },
    }
}

/// A Pak is found valid exactly when it could be read and nothing is wrong with
/// it.
pub proof fn valid_exactly_without_errors(
    found: std::result::Result<PakInventoryView, PakErrorView>,
    report: Option<MergeReportView>,
)
    ensures
        verification(found, report).valid <==> verification(found, report).errors.len() == 0,
        verification(found, report).valid ==> found is Ok,
        report is None && found is Ok ==> verification(found, report).valid,
{
}

proof fn audit_errors_add_up(
    done: Seq<Seq<char>>,
    assets: Seq<(Seq<char>, bool)>,
    paths: Seq<(Seq<char>, bool)>,
    audits: Seq<RawPreservationAssetAuditView>,
    entries: Seq<PakEntryInventoryView>,
    at: int,
)
    ensures
        all_audit_errors(done, assets, paths, audits, entries).len() >= done.len(),
        0 <= at < audits.len() ==> all_audit_errors(done, assets, paths, audits, entries).len()
            >= done.len() + audit_entry_errors(audits[at], entries).len(),
    decreases audits.len(),
{
    if audits.len() > 0 {
        audit_errors_add_up(
            done + audit_errors(assets, paths, audits[0], entries),
            put(assets, folded(audits[0].asset_path), true),
            put(paths, folded(audits[0].pak_entry_path), true),
            audits.skip(1),
            entries,
            at - 1,
        );
        if 0 < at < audits.len() {
            assert(audits.skip(1)[at - 1] == audits[at]);
        }
    }
}

/// A report is found valid only where every digest that its audits record is the
/// digest of the file that the Pak holds.
pub proof fn audits_of_valid_reports_match(
    inventory: PakInventoryView,
    report: MergeReportView,
    at: int,
)
    requires
        compared_with(inventory, Some(report)).valid,
        0 <= at < report.raw_preservation_audits.len(),
    ensures
        ({
            let audit = report.raw_preservation_audits[at];
            entry_with_key(inventory.entries, folded(audit.pak_entry_path)) matches Some(entry)
                && entry.sha256 == audit.entry_sha256
        }),
{
    audit_errors_add_up(
        Seq::empty(),
        Seq::empty(),
        Seq::empty(),
        report.raw_preservation_audits,
        inventory.entries,
        at,
    );
    assert(audit_entry_errors(report.raw_preservation_audits[at], inventory.entries).len() == 0);
}

/// A report that was found valid is found invalid once the digest of one of its
/// audits was changed.
pub proof fn changed_audits_are_noticed(
    inventory: PakInventoryView,
    report: MergeReportView,
    at: int,
    digest: Seq<char>,
)
    requires
        compared_with(inventory, Some(report)).valid,
        0 <= at < report.raw_preservation_audits.len(),
        digest != report.raw_preservation_audits[at].entry_sha256,
    ensures
        !compared_with(
            inventory,
            Some(
                (MergeReportView {
                    raw_preservation_audits: report.raw_preservation_audits.update(
                        at,
                        RawPreservationAssetAuditView {
                            entry_sha256: digest,
                            ..report.raw_preservation_audits[at]
                        },
                    ),
                    ..report
                }),
            ),
        ).valid,
{
    let changed = MergeReportView {
        raw_preservation_audits: report.raw_preservation_audits.update(
            at,
            RawPreservationAssetAuditView {
                entry_sha256: digest,
                ..report.raw_preservation_audits[at]
            },
        ),
        ..report
    };
    audits_of_valid_reports_match(inventory, report, at);
    if compared_with(inventory, Some(changed)).valid {
        audits_of_valid_reports_match(inventory, changed, at);
    }
}

} // verus!
