//! The report of a finished merge.
use vstd::prelude::*;

use super::audit::{
    checked_audit, checked_audits, entry_with_key, finalize_raw_preservation_audits,
    ledgers_have_digests, sealed_audit, sealed_ledger, PendingAuditView,
};
use super::database::{ParsedDbProviderView, Reading};
use super::error::{seen, unverified, MergeError, MergeErrorView, Outcome, Result};
use super::ids::{digest_texts_are_digests, folded, is_digest, join, joined};
use super::opened::OpenedPakView;
use super::output::{
    one_audit_per_merged_database, prepared_output, DatabaseSupply, PreparedOutput,
    PreparedOutputView,
};
use super::references::{pinned_references, validate_references_for_pinned_profile};
use super::resolve::{build_report_conflict_records, conflict_records};
use super::types::{
    FinalEntryInventory, FinalEntryInventoryView, MergePlan, MergePlanView, MergeReport,
    MergeReportView, RawPreservationAssetAuditView, ResolutionSet, ResolutionSetView,
};
use super::verify::{
    all_audit_errors, all_file_errors, archive_errors, audit_entry_errors, audit_errors,
    compression_errors, file_errors, output_compression_errors, report_errors,
    reported_compression_errors, verification,
};
use crate::digest::sha256_digest;
use crate::lists::{copy_list, views, views_push, Duplicate};
use crate::ordered::{ascending, get, put, put_keeps_order, put_then_get, OrderedMap};
use crate::pak::access::verified_output;
use crate::pak::archive::{
    LogicalValidation, OutsideReadingView, PakEntryInventory, PakEntryInventoryView,
    PakInventoryView,
};
use crate::pak::error::PakErrorView;
use crate::pak::footer::SUPPORTED_PAK_VERSION;
use crate::pak::layout::{
    files_differ_in_more_than_case, keeping_contents_does_not_matter, listed_files_are_found,
    opened_files_stand_apart, recorded_digests_are_digests,
};
use crate::pak::open::{opened, PakArchive, PakArchiveView};
use crate::pak::paths::normal_path;
use crate::pak::write::{
    compression_name, compression_names_differ, digest_views, OutputCompression,
};
use crate::text::{ascii_lowercase, clone_texts, hex_text, texts};

verus! {

/// Digests under their paths.
pub open spec fn digest_map(
    map: Seq<(Seq<char>, Seq<char>)>,
    rest: Seq<(Seq<char>, Seq<char>)>,
) -> Seq<(Seq<char>, Seq<char>)>
    decreases rest.len(),
{
    if rest.len() == 0 {
        map
    } else {
        digest_map(put(map, rest[0].0, rest[0].1), rest.skip(1))
    }
}

fn map_digests(digests: &Vec<(String, String)>) -> (result: OrderedMap<String>)
    ensures
        result.well_formed(),
        result@ == digest_map(Seq::empty(), digest_views(digests@)),
{
    let ghost all = digest_views(digests@);
    let mut map: OrderedMap<String> = OrderedMap::new();
    let mut at: usize = 0;
    assert(all.skip(0) =~= all);
    while at < digests.len()
        invariant
            at <= digests@.len(),
            all == digest_views(digests@),
            map.well_formed(),
            digest_map(Seq::empty(), all) == digest_map(map@, all.skip(at as int)),
        decreases digests.len() - at,
    {
        proof {
            assert(all.skip(at as int)[0] == (digests@[at as int].0@, digests@[at as int].1@));
            assert(all.skip(at as int).skip(1) =~= all.skip(at as int + 1));
        }
        map.insert(digests[at].0.clone(), digests[at].1.clone());
        at += 1;
    }
    map
}

/// The files of an archive as a report lists them.
pub open spec fn final_inventory(entries: Seq<PakEntryInventoryView>) -> Seq<FinalEntryInventoryView> {
    entries.map_values(
        |entry: PakEntryInventoryView|
            FinalEntryInventoryView { path: entry.path, size: entry.size, sha256: entry.sha256 },
    )
}

fn list_final_inventory(entries: &Vec<PakEntryInventory>) -> (result: Vec<FinalEntryInventory>)
    ensures
        views(result@) == final_inventory(views(entries@)),
{
    let ghost all = final_inventory(views(entries@));
    let mut result: Vec<FinalEntryInventory> = Vec::new();
    let mut at: usize = 0;
    assert(views(result@) =~= all.take(0));
    while at < entries.len()
        invariant
            at <= entries@.len(),
            all == final_inventory(views(entries@)),
            views(result@) == all.take(at as int),
        decreases entries.len() - at,
    {
        let item = FinalEntryInventory {
            path: entries[at].path.clone(),
            size: entries[at].size,
            sha256: entries[at].sha256.clone(),
        };
        proof {
            views_push(result@, item);
            assert(views(entries@)[at as int] == entries@[at as int]@);
            assert(all[at as int] == item@);
            assert(all.take(at as int + 1) =~= all.take(at as int).push(item@));
        }
        result.push(item);
        at += 1;
    }
    assert(all.take(at as int) =~= all);
    result
}

/// The report of a merge whose archive passed all checks.
pub open spec fn report_of(
    plan: MergePlanView,
    resolutions: ResolutionSetView,
    prepared: PreparedOutputView,
    inventory: PakInventoryView,
    audits: Seq<RawPreservationAssetAuditView>,
    reference_warnings: Seq<Seq<char>>,
    compression: OutputCompression,
    output_path: Seq<char>,
    output_size: u64,
    tool_version: Seq<char>,
) -> MergeReportView {
    MergeReportView {
        schema_version: 4,
        tool_version,
        plan_id: plan.plan_id,
        carrier_input_id: plan.carrier_input_id,
        inputs: plan.inputs,
        output_path,
        output_sha256: inventory.archive_sha256,
        output_size,
        output_entry_count: inventory.entries.len() as usize,
        output_pak_version: inventory.footer.version,
        output_mount_point: inventory.mount_point,
        output_compression: compression_name(compression),
        output_encrypted: false,
        output_signed: false,
        final_inventory: final_inventory(inventory.entries),
        actions: plan.assets,
        conflicts: plan.conflicts,
        resolved_conflicts: conflict_records(
            plan.conflicts,
            resolutions.choices,
            plan.carrier_input_id,
        ),
        resolutions,
        warnings: plan.warnings,
        raw_preserved_nodes: prepared.preserved,
        raw_replaced_nodes: prepared.replaced,
        raw_preservation_audits: audits,
        encoding_drift_count: plan.encoding_drift_count,
        reference_validation_warnings: reference_warnings,
        full_reencode_forbidden: true,
        verification_passed: true,
    }
}

/// The report of a merge, held against the archive that was written. `sources`
/// gives the digests of what the writer read, `readings` what the reader made of
/// the tables whose links are known.
pub open spec fn finished_report(
    plan: MergePlanView,
    resolutions: ResolutionSetView,
    prepared: PreparedOutputView,
    archive: PakArchiveView,
    sources: Seq<(Seq<char>, Seq<char>)>,
    readings: Seq<Reading>,
    compression: OutputCompression,
    output_path: Seq<char>,
    output_size: u64,
    tool_version: Seq<char>,
) -> Outcome<MergeReportView> {
    let inventory = archive.inventory;
    match checked_audits(
        Seq::empty(),
        Seq::empty(),
        Seq::empty(),
        prepared.audits,
        inventory.entries,
        digest_map(Seq::empty(), sources),
    ) {
        Err(error) => Err(error),
        Ok(audits) => if compression_errors(inventory, compression).len() > 0 {
            unverified(joined(compression_errors(inventory, compression), "; "@))
        } else {
            match pinned_references(plan, archive, readings) {
                Err(error) => Err(error),
                Ok(warnings) => Ok(
                    report_of(
                        plan,
                        resolutions,
                        prepared,
                        inventory,
                        audits,
                        warnings,
                        compression,
                        output_path,
                        output_size,
                        tool_version,
                    ),
                ),
            }
        },
    }
}

/// Checks the archive that a merge has written, and reports on the merge.
pub fn finish_merge(
    plan: &MergePlan,
    resolutions: &ResolutionSet,
    prepared: &PreparedOutput,
    archive: &PakArchive,
    sources: &Vec<(String, String)>,
    readings: Vec<Reading>,
    compression: OutputCompression,
    output_path: &str,
    output_size: u64,
    tool_version: &str,
) -> (result: Result<MergeReport>)
    requires
        resolutions.choices.well_formed(),
        archive.well_formed(),
    ensures
        seen(result) == finished_report(
            plan@,
            resolutions@,
            prepared@,
            archive@,
            digest_views(sources@),
            readings@,
            compression,
            output_path@,
            output_size,
            tool_version@,
        ),
        result matches Ok(report) ==> ledgers_have_digests(report.raw_preservation_audits@),
{
    let inventory = &archive.inventory;
    let map = map_digests(sources);
    let audits = match finalize_raw_preservation_audits(&prepared.audits, inventory, &map) {
        Ok(audits) => audits,
        Err(error) => {
            return Err(error);
        },
    };
    let errors = output_compression_errors(inventory, compression);
    assert(texts(errors@).len() == errors@.len());
    if errors.len() > 0 {
        return Err(MergeError::Verification(join(&errors, "; ")));
    }
    let warnings = match validate_references_for_pinned_profile(plan, archive, readings) {
        Ok(warnings) => warnings,
        Err(error) => {
            return Err(error);
        },
    };
    assert(inventory@.entries.len() == inventory.entries@.len());
    Ok(
        MergeReport {
            schema_version: 4,
            tool_version: tool_version.to_owned(),
            plan_id: plan.plan_id.clone(),
            carrier_input_id: plan.carrier_input_id.clone(),
            inputs: copy_list(&plan.inputs),
            output_path: output_path.to_owned(),
            output_sha256: inventory.archive_sha256.clone(),
            output_size,
            output_entry_count: inventory.entries.len(),
            output_pak_version: inventory.footer.version,
            output_mount_point: inventory.mount_point.clone(),
            output_compression: compression.report_name().to_owned(),
            output_encrypted: false,
            output_signed: false,
            final_inventory: list_final_inventory(&inventory.entries),
            actions: copy_list(&plan.assets),
            conflicts: copy_list(&plan.conflicts),
            resolved_conflicts: build_report_conflict_records(
                plan,
                resolutions,
                plan.carrier_input_id.as_str(),
            ),
            resolutions: resolutions.copy(),
            warnings: clone_texts(&plan.warnings),
            raw_preserved_nodes: prepared.preserved,
            raw_replaced_nodes: prepared.replaced,
            raw_preservation_audits: audits,
            encoding_drift_count: plan.encoding_drift_count,
            reference_validation_warnings: warnings,
            full_reencode_forbidden: true,
            verification_passed: true,
        },
    )
}

/// No two files of an archive have the same key.
pub open spec fn files_have_own_keys(entries: Seq<PakEntryInventoryView>) -> bool {
    forall|i: int, j: int|
        0 <= i < j < entries.len() ==> folded((#[trigger] entries[i]).path) != folded(
            (#[trigger] entries[j]).path,
        )
}

/// Every file of an archive has a digest.
pub open spec fn files_have_digests(entries: Seq<PakEntryInventoryView>) -> bool {
    forall|i: int| 0 <= i < entries.len() ==> is_digest((#[trigger] entries[i]).sha256)
}

/// In an archive whose files have keys of their own, every file is found under its key.
pub proof fn own_key_finds(entries: Seq<PakEntryInventoryView>, at: int)
    requires
        files_have_own_keys(entries),
        0 <= at < entries.len(),
    ensures
        entry_with_key(entries, folded(entries[at].path)) == Some(entries[at]),
    decreases entries.len(),
{
    if at < entries.len() - 1 {
        let rest = entries.drop_last();
        assert forall|i: int, j: int| 0 <= i < j < rest.len() implies folded(
            (#[trigger] rest[i]).path,
        ) != folded((#[trigger] rest[j]).path) by {
            assert(rest[i] == entries[i] && rest[j] == entries[j]);
        }
        assert(rest[at] == entries[at]);
        assert(folded(entries[at].path) != folded(entries[entries.len() - 1].path));
        own_key_finds(rest, at);
    }
}

proof fn found_entries_have_digests(entries: Seq<PakEntryInventoryView>, key: Seq<char>)
    requires
        files_have_digests(entries),
    ensures
        entry_with_key(entries, key) matches Some(entry) ==> is_digest(entry.sha256),
    decreases entries.len(),
{
    if entries.len() > 0 && folded(entries.last().path) != key {
        let rest = entries.drop_last();
        assert forall|i: int| 0 <= i < rest.len() implies is_digest((#[trigger] rest[i]).sha256) by {
            assert(rest[i] == entries[i]);
        }
        found_entries_have_digests(rest, key);
    }
}

proof fn listed_files_pass(
    met: Seq<(Seq<char>, bool)>,
    entries: Seq<PakEntryInventoryView>,
    at: int,
)
    requires
        0 <= at <= entries.len(),
        files_have_own_keys(entries),
        ascending(met),
        forall|i: int|
            at <= i < entries.len() ==> get(met, folded((#[trigger] entries[i]).path)) is None,
    ensures
        all_file_errors(Seq::empty(), met, final_inventory(entries).skip(at), entries)
            == Seq::<Seq<char>>::empty(),
    decreases entries.len() - at,
{
    let list = final_inventory(entries).skip(at);
    if at < entries.len() {
        let key = folded(entries[at].path);
        assert(list[0] == final_inventory(entries)[at]);
        own_key_finds(entries, at);
        assert(file_errors(met, list[0], entries) =~= Seq::empty());
        assert(Seq::<Seq<char>>::empty() + Seq::<Seq<char>>::empty() =~= Seq::empty());
        assert(list.skip(1) =~= final_inventory(entries).skip(at + 1));
        put_keeps_order(met, key, true);
        assert forall|i: int| at + 1 <= i < entries.len() implies get(
            put(met, key, true),
            folded((#[trigger] entries[i]).path),
        ) is None by {
            assert(folded(entries[at].path) != folded(entries[i].path));
            put_then_get(met, key, true, folded(entries[i].path));
        }
        listed_files_pass(put(met, key, true), entries, at + 1);
    }
}

proof fn sealed_audit_passes(
    assets: Seq<(Seq<char>, bool)>,
    paths: Seq<(Seq<char>, bool)>,
    pending: PendingAuditView,
    entries: Seq<PakEntryInventoryView>,
    sources: Seq<(Seq<char>, Seq<char>)>,
)
    requires
        get(assets, folded(pending.asset_path)) is None,
        get(paths, folded(pending.pak_entry_path)) is None,
        checked_audit(pending, entries, sources) is Ok,
        files_have_digests(entries),
    ensures
        ({
            let audit = checked_audit(pending, entries, sources)->Ok_0;
            &&& audit.asset_path == pending.asset_path
            &&& audit.pak_entry_path == pending.pak_entry_path
            &&& audit_errors(assets, paths, audit, entries) == Seq::<Seq<char>>::empty()
        }),
{
    let entry_key = folded(pending.pak_entry_path);
    let entry = entry_with_key(entries, entry_key)->0;
    let audit = sealed_audit(pending, entry.sha256);
    found_entries_have_digests(entries, entry_key);
    digest_texts_are_digests(sealed_ledger(pending.audit, entry.sha256));
    assert(audit_entry_errors(audit, entries) =~= Seq::empty());
    assert(audit_errors(assets, paths, audit, entries) =~= Seq::empty());
}

proof fn continued_list(
    audits: Seq<RawPreservationAssetAuditView>,
    done: Seq<RawPreservationAssetAuditView>,
    audit: RawPreservationAssetAuditView,
)
    requires
        done.len() < audits.len(),
        audits.take(done.len() as int + 1) == done.push(audit),
    ensures
        audits.take(done.len() as int) == done,
        audits.skip(done.len() as int).len() > 0,
        audits.skip(done.len() as int)[0] == audit,
        audits.skip(done.len() as int).skip(1) == audits.skip(done.len() as int + 1),
{
    let at = done.len() as int;
    assert(audits.take(at + 1)[at] == audit);
    assert(audits.take(at + 1).take(at) =~= audits.take(at));
    assert(done.push(audit).take(at) =~= done);
    assert(audits.skip(at).skip(1) =~= audits.skip(at + 1));
}

proof fn one_more_passing_audit(
    assets: Seq<(Seq<char>, bool)>,
    paths: Seq<(Seq<char>, bool)>,
    audits: Seq<RawPreservationAssetAuditView>,
    entries: Seq<PakEntryInventoryView>,
)
    requires
        audits.len() > 0,
        audit_errors(assets, paths, audits[0], entries) == Seq::<Seq<char>>::empty(),
    ensures
        all_audit_errors(Seq::empty(), assets, paths, audits, entries) == all_audit_errors(
            Seq::empty(),
            put(assets, folded(audits[0].asset_path), true),
            put(paths, folded(audits[0].pak_entry_path), true),
            audits.skip(1),
            entries,
        ),
{
    assert(Seq::<Seq<char>>::empty() + Seq::<Seq<char>>::empty() =~= Seq::empty());
}

proof fn sealed_audits_pass(
    done: Seq<RawPreservationAssetAuditView>,
    assets: Seq<(Seq<char>, bool)>,
    paths: Seq<(Seq<char>, bool)>,
    pending: Seq<PendingAuditView>,
    entries: Seq<PakEntryInventoryView>,
    sources: Seq<(Seq<char>, Seq<char>)>,
    audits: Seq<RawPreservationAssetAuditView>,
)
    requires
        checked_audits(done, assets, paths, pending, entries, sources) == Ok::<
            Seq<RawPreservationAssetAuditView>,
            MergeErrorView,
        >(audits),
        files_have_digests(entries),
    ensures
        audits.len() == done.len() + pending.len(),
        audits.take(done.len() as int) == done,
        all_audit_errors(Seq::empty(), assets, paths, audits.skip(done.len() as int), entries)
            == Seq::<Seq<char>>::empty(),
    decreases pending.len(),
{
    if pending.len() == 0 {
        assert(audits.take(done.len() as int) =~= done);
    } else {
        let asset_key = folded(pending[0].asset_path);
        let entry_key = folded(pending[0].pak_entry_path);
        let audit = checked_audit(pending[0], entries, sources)->Ok_0;
        let more = done.push(audit);
        sealed_audit_passes(assets, paths, pending[0], entries, sources);
        sealed_audits_pass(
            more,
            put(assets, asset_key, true),
            put(paths, entry_key, true),
            pending.skip(1),
            entries,
            sources,
            audits,
        );
        continued_list(audits, done, audit);
        one_more_passing_audit(assets, paths, audits.skip(done.len() as int), entries);
    }
}

proof fn folding_normal_paths(path: Seq<char>)
    requires
        normal_path(path) is Ok,
    ensures
        folded(path) == ascii_lowercase(path),
{
    assert forall|i: int| 0 <= i < path.len() implies folded(path)[i] == ascii_lowercase(path)[i] by {
        if path[i] == '\\' {
            assert(path.contains('\\'));
        }
    }
    assert(folded(path) =~= ascii_lowercase(path));
}

/// The files of an opened archive have digests, and keys of their own.
proof fn opened_files_have_keys_and_digests(
    path: Seq<char>,
    bytes: Seq<u8>,
    validation: LogicalValidation,
    outside: OutsideReadingView,
    archive: PakArchiveView,
)
    requires
        opened(path, bytes, validation, outside) == Ok::<
            PakArchiveView,
            PakErrorView,
        >(archive),
    ensures
        files_have_own_keys(archive.inventory.entries),
        files_have_digests(archive.inventory.entries),
{
    let entries = archive.inventory.entries;
    opened_files_stand_apart(path, bytes, validation, outside);
    assert forall|i: int| 0 <= i < entries.len() implies is_digest((#[trigger] entries[i]).sha256) by {
        recorded_digests_are_digests(path, bytes, validation, outside, i);
        let source = choose|source: Seq<u8>|
            entries[i].sha256 == hex_text(#[trigger] sha256_digest(source));
        digest_texts_are_digests(source);
    }
    assert forall|i: int, j: int| 0 <= i < j < entries.len() implies folded(
        (#[trigger] entries[i]).path,
    ) != folded((#[trigger] entries[j]).path) by {
        listed_files_are_found(path, bytes, validation, outside, i);
        listed_files_are_found(path, bytes, validation, outside, j);
        files_differ_in_more_than_case(path, bytes, validation, outside, i, j);
        folding_normal_paths(entries[i].path);
        folding_normal_paths(entries[j].path);
    }
}

/// Every merge that is reported on passes the verification of its own output: the
/// Pak that was opened and reported on is found valid when it is verified against
/// its report, without an error and without a warning.
pub proof fn fresh_reports_pass(
    plan: MergePlanView,
    resolutions: ResolutionSetView,
    opened_paks: Seq<OpenedPakView>,
    databases: Seq<(Seq<char>, Seq<ParsedDbProviderView>)>,
    supplies: Seq<DatabaseSupply>,
    prepared: PreparedOutputView,
    path: Seq<char>,
    bytes: Seq<u8>,
    validation: LogicalValidation,
    outside: OutsideReadingView,
    archive: PakArchiveView,
    sources: Seq<(Seq<char>, Seq<char>)>,
    readings: Seq<Reading>,
    compression: OutputCompression,
    output_path: Seq<char>,
    output_size: u64,
    tool_version: Seq<char>,
    report: MergeReportView,
)
    requires
        prepared_output(plan, resolutions, opened_paks, databases, supplies) == Ok::<
            PreparedOutputView,
            MergeErrorView,
        >(prepared),
        validation.strict(),
        opened(path, bytes, validation, outside) == Ok::<PakArchiveView, PakErrorView>(archive),
        archive.inventory.footer.version == SUPPORTED_PAK_VERSION,
        archive.inventory.entries.len() <= usize::MAX,
        finished_report(
            plan,
            resolutions,
            prepared,
            archive,
            sources,
            readings,
            compression,
            output_path,
            output_size,
            tool_version,
        ) == Ok::<MergeReportView, MergeErrorView>(report),
    ensures
        ({
            let found = verification(
                verified_output(output_path, bytes, outside, None),
                Some(report),
            );
            &&& found.valid
            &&& found.errors == Seq::<Seq<char>>::empty()
            &&& found.warnings == Seq::<Seq<char>>::empty()
            &&& found.pak_sha256 == report.output_sha256
        }),
{
    let inventory = archive.inventory;
    let audits = report.raw_preservation_audits;
    opened_files_have_keys_and_digests(path, bytes, validation, outside, archive);
    sealed_audits_pass(
        Seq::empty(),
        Seq::empty(),
        Seq::empty(),
        prepared.audits,
        inventory.entries,
        digest_map(Seq::empty(), sources),
        audits,
    );
    assert(audits.skip(0) =~= audits);
    listed_files_pass(Seq::empty(), inventory.entries, 0);
    assert(final_inventory(inventory.entries).skip(0) =~= final_inventory(inventory.entries));
    one_audit_per_merged_database(plan, resolutions, opened_paks, databases, supplies, prepared);
    assert(archive_errors(inventory, report) =~= Seq::empty());
    compression_names_differ();
    assert(reported_compression_errors(inventory, report.output_compression)
        == compression_errors(inventory, compression));
    assert(compression_errors(inventory, compression) =~= Seq::empty());
    assert(report_errors(inventory, report) =~= Seq::empty());
    keeping_contents_does_not_matter(path, validation, output_path, bytes, outside);
    let again = PakInventoryView { source_path: output_path, ..inventory };
    assert(verified_output(output_path, bytes, outside, None) == Ok::<
        PakInventoryView,
        PakErrorView,
    >(again));
    assert(report_errors(again, report) == report_errors(inventory, report));
}

} // verus!
