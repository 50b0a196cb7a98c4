//! What an archive writer is told to write, and in which order.
use vstd::prelude::*;
use vstd::slice::slice_to_vec;

use super::error::{seen, PakError, PakErrorView, Result};
use super::footer::check;
use super::paths::{
    keyed, keyed_output, normal_mount, normal_path, normalize_entry_path, normalize_mount_point,
    normalized_sort_key, sort_and_validate_paths, sort_and_validate_selected_paths, sort_key_of,
};
use crate::digest::{sha256_digest, sha256_of};
use crate::ordered::{
    ascending, get, put, put_keeps_order, put_then_get, slot, slot_parts, values, OrderedMap,
};
use crate::sorting::{ascending_order_is_unique, inserting_adds_one, values_of_equal_bags};
use crate::text::{hex_encode, hex_text, texts, text_view};

verus! {

/// How the files of an output are stored.
#[derive(Debug, Clone, Copy, PartialEq, Eq, Structural)]
pub enum OutputCompression {
    Uncompressed,
    Oodle,
}

/// The name of a compression in reports.
pub open spec fn compression_name(compression: OutputCompression) -> Seq<char> {
    match compression {
        OutputCompression::Uncompressed => "None"@,
        OutputCompression::Oodle => "Oodle"@,
    }
}

/// A name in a report stands for one compression.
pub proof fn compression_names_differ()
    ensures
        compression_name(OutputCompression::Uncompressed) != compression_name(
            OutputCompression::Oodle,
        ),
{
    reveal_strlit("None");
    reveal_strlit("Oodle");
    assert("None"@.len() != "Oodle"@.len());
}

impl OutputCompression {
    /// The name of the compression in reports.
    pub fn report_name(self) -> (result: &'static str)
        ensures
            result@ == compression_name(self),
    {
        match self {
            OutputCompression::Uncompressed => "None",
            OutputCompression::Oodle => "Oodle",
        }
    }
}

/// A file that is to be written.
#[derive(Debug, Clone)]
pub struct PakWriteEntry {
    pub path: String,
    pub data: Vec<u8>,
}

#[verifier::ext_equal]
pub struct PakWriteEntryView {
    pub path: Seq<char>,
    pub data: Seq<u8>,
}

impl View for PakWriteEntry {
    type V = PakWriteEntryView;

    open spec fn view(&self) -> PakWriteEntryView {
        PakWriteEntryView { path: self.path@, data: self.data@ }
    }
}

impl PakWriteEntry {
    pub fn new(path: String, data: Vec<u8>) -> (result: Self)
        ensures
            result.path@ == path@,
            result.data@ == data@,
    {
        PakWriteEntry { path, data }
    }

    pub fn copy(&self) -> (result: Self)
        ensures
            result@ == self@,
    {
        PakWriteEntry { path: self.path.clone(), data: slice_to_vec(self.data.as_slice()) }
    }
}

pub open spec fn write_views(entries: Seq<PakWriteEntry>) -> Seq<PakWriteEntryView> {
    entries.map_values(|entry: PakWriteEntry| entry@)
}

/// The base folder and the files of an archive, in the order in which they are
/// written.
#[derive(Debug)]
pub struct WriteOrder {
    pub mount_point: String,
    pub entries: Vec<PakWriteEntry>,
    /// The digests of the files whose sources were to be hashed, under their
    /// paths.
    pub source_sha256: Vec<(String, String)>,
}

#[verifier::ext_equal]
pub struct WriteOrderView {
    pub mount_point: Seq<char>,
    pub entries: Seq<PakWriteEntryView>,
    pub source_sha256: Seq<(Seq<char>, Seq<char>)>,
}

pub open spec fn digest_views(digests: Seq<(String, String)>) -> Seq<(Seq<char>, Seq<char>)> {
    digests.map_values(|item: (String, String)| (item.0@, item.1@))
}

impl View for WriteOrder {
    type V = WriteOrderView;

    open spec fn view(&self) -> WriteOrderView {
        WriteOrderView {
            mount_point: self.mount_point@,
            entries: write_views(self.entries@),
            source_sha256: digest_views(self.source_sha256@),
        }
    }
}

/// The rest of the files under the keys of their paths.
pub open spec fn files_from(met: Seq<(Seq<char>, PakWriteEntryView)>, rest: Seq<PakWriteEntryView>) -> std::result::Result<
    Seq<(Seq<char>, PakWriteEntryView)>,
    PakErrorView,
>
    decreases rest.len(),
{
    if rest.len() == 0 {
        Ok(met)
    } else {
        match normal_path(rest[0].path) {
            Err(error) => Err(error),
            Ok(path) => match get(met, sort_key_of(path)) {
                Some(first) => Err(
                    PakErrorView::DuplicatePath { first: first.path, second: path },
                ),
                None => files_from(
                    put(met, sort_key_of(path), PakWriteEntryView { path, data: rest[0].data }),
                    rest.skip(1),
                ),
            },
        }
    }
}

/// The order in which files are written: by the keys of their paths.
pub open spec fn order_of(mount: Seq<char>, files: Seq<PakWriteEntryView>) -> std::result::Result<
    WriteOrderView,
    PakErrorView,
> {
    match normal_mount(mount) {
        Err(error) => Err(error),
        Ok(mount_point) => match files_from(Seq::empty(), files) {
            Err(error) => Err(error),
            Ok(met) => if met.len() == 0 {
                Err(PakErrorView::EmptyArchive)
            } else {
                Ok(
                    WriteOrderView {
                        mount_point,
                        entries: values(met),
                        source_sha256: Seq::empty(),
                    },
                )
            },
        },
    }
}

fn take_files(map: OrderedMap<PakWriteEntry>) -> (result: Vec<PakWriteEntry>)
    ensures
        write_views(result@) == values(map@),
{
    let mut result: Vec<PakWriteEntry> = Vec::new();
    let mut at: usize = 0;
    while at < map.items.len()
        invariant
            at <= map.items@.len(),
            write_views(result@) == values(map@).take(at as int),
        decreases map.items.len() - at,
    {
        let file = map.items[at].1.copy();
        proof {
            assert(write_views(result@.push(file)) =~= write_views(result@).push(file@));
            assert(values(map@).take(at as int + 1) =~= values(map@).take(at as int).push(file@));
        }
        result.push(file);
        at += 1;
    }
    assert(values(map@).take(at as int) =~= values(map@));
    result
}

/// The order in which an uncompressed archive of version 11 is written.
pub fn write_pak_v11_to(mount_point: &str, entries: &Vec<PakWriteEntry>) -> (result: Result<WriteOrder>)
    ensures
        seen(result) == order_of(mount_point@, write_views(entries@)),
{
    let mount = normalize_mount_point(mount_point)?;
    let mut sorted: OrderedMap<PakWriteEntry> = OrderedMap::new();
    let mut at: usize = 0;
    let ghost all = write_views(entries@);
    proof {
        assert(all.skip(0) == all);
    }
    while at < entries.len()
        invariant
            at <= entries@.len(),
            all == write_views(entries@),
            sorted.well_formed(),
            normal_mount(mount_point@) is Ok,
            files_from(Seq::empty(), all) == files_from(sorted@, all.skip(at as int)),
        decreases entries.len() - at,
    {
        proof {
            assert(all.skip(at as int)[0] == entries@[at as int]@);
            assert(all.skip(at as int).skip(1) == all.skip(at as int + 1));
        }
        let path = normalize_entry_path(entries[at].path.as_str())?;
        let key = normalized_sort_key(path.as_str());
        match sorted.find(key.as_str()) {
            Some(place) => {
                return Err(
                    PakError::DuplicatePath {
                        first: sorted.items[place].1.path.clone(),
                        second: path,
                    },
                );
            },
            None => {},
        }
        let file = PakWriteEntry { path, data: slice_to_vec(entries[at].data.as_slice()) };
        sorted.insert(key, file);
        at += 1;
    }
    if sorted.items.len() == 0 {
        return Err(PakError::EmptyArchive);
    }
    let order = WriteOrder {
        mount_point: mount,
        entries: take_files(sorted),
        source_sha256: Vec::new(),
    };
    assert(digest_views(order.source_sha256@) =~= Seq::empty());
    Ok(order)
}

/// The paths of an output in the order in which they are written, and which of
/// them have their source hashed.
#[derive(Debug)]
pub struct WritePlan {
    pub mount_point: String,
    pub paths: Vec<String>,
    pub hashed: Vec<bool>,
}

#[verifier::ext_equal]
pub struct WritePlanView {
    pub mount_point: Seq<char>,
    pub paths: Seq<Seq<char>>,
    pub hashed: Seq<bool>,
}

impl View for WritePlan {
    type V = WritePlanView;

    open spec fn view(&self) -> WritePlanView {
        WritePlanView {
            mount_point: self.mount_point@,
            paths: texts(self.paths@),
            hashed: self.hashed@,
        }
    }
}

/// The first path to be hashed that the output does not have.
pub open spec fn absent_fault(
    paths: Seq<(Seq<char>, Seq<char>)>,
    wanted: Seq<(Seq<char>, Seq<char>)>,
) -> Option<PakErrorView>
    decreases wanted.len(),
{
    if wanted.len() == 0 {
        None
    } else if get(paths, wanted[0].0) is None {
        Some(PakErrorView::MissingEntry(wanted[0].1))
    } else {
        absent_fault(paths, wanted.skip(1))
    }
}

/// The plan by which an output is written.
pub open spec fn write_plan(
    mount: Seq<char>,
    paths: Seq<Seq<char>>,
    hash_paths: Seq<Seq<char>>,
    compression: OutputCompression,
    oodle_failure: Option<Seq<char>>,
) -> std::result::Result<WritePlanView, PakErrorView> {
    match normal_mount(mount) {
        Err(error) => Err(error),
        Ok(mount_point) => match keyed_output(paths) {
            Err(error) => Err(error),
            Ok(sorted) => match keyed(hash_paths) {
                Err(error) => Err(error),
                Ok(wanted) => match absent_fault(sorted, wanted) {
                    Some(error) => Err(error),
                    None => match oodle_failure {
                        Some(reason) if compression == OutputCompression::Oodle => Err(
                            PakErrorView::OodleUnavailable { path: "merged output"@, reason },
                        ),
                        _ => Ok(
                            WritePlanView {
                                mount_point,
                                paths: values(sorted),
                                hashed: Seq::new(
                                    sorted.len(),
                                    |i: int| get(wanted, sorted[i].0) is Some,
                                ),
                            },
                        ),
                    },
                },
            },
        },
    }
}

fn check_present(paths: &OrderedMap<String>, wanted: &OrderedMap<String>) -> (result: Result<()>)
    requires
        paths.well_formed(),
    ensures
        seen(result) == check(absent_fault(paths@, wanted@)),
{
    let mut at: usize = 0;
    proof {
        assert(wanted@.skip(0) == wanted@);
    }
    while at < wanted.items.len()
        invariant
            at <= wanted.items@.len(),
            paths.well_formed(),
            absent_fault(paths@, wanted@) == absent_fault(paths@, wanted@.skip(at as int)),
        decreases wanted.items.len() - at,
    {
        proof {
            assert(wanted@.skip(at as int)[0] == (wanted.items@[at as int].0@, wanted.items@[at as int].1@));
            assert(wanted@.skip(at as int).skip(1) == wanted@.skip(at as int + 1));
        }
        if paths.find(wanted.items[at].0.as_str()).is_none() {
            return Err(PakError::MissingEntry(wanted.items[at].1.clone()));
        }
        at += 1;
    }
    Ok(())
}

pub fn prepare_write(
    mount_point: &str,
    paths: &Vec<String>,
    source_hash_paths: &Vec<String>,
    compression: OutputCompression,
    oodle_failure: &Option<String>,
    cancelled: bool,
) -> (result: Result<WritePlan>)
    ensures
        seen(result) == if cancelled {
            Err(PakErrorView::Cancelled)
        } else {
            write_plan(
                mount_point@,
                texts(paths@),
                texts(source_hash_paths@),
                compression,
                text_view(*oodle_failure),
            )
        },
        result matches Ok(plan) ==> plan.paths@.len() == plan.hashed@.len(),
{
    if cancelled {
        return Err(PakError::Cancelled);
    }
    let mount_point = normalize_mount_point(mount_point)?;
    let sorted = sort_and_validate_paths(paths)?;
    let wanted = sort_and_validate_selected_paths(source_hash_paths)?;
    check_present(&sorted, &wanted)?;
    if compression == OutputCompression::Oodle {
        match oodle_failure {
            Some(reason) => {
                return Err(
                    PakError::OodleUnavailable {
                        path: "merged output".to_owned(),
                        reason: reason.clone(),
                    },
                );
            },
            None => {},
        }
    }
    let mut listed: Vec<String> = Vec::new();
    let mut hashed: Vec<bool> = Vec::new();
    let mut at: usize = 0;
    while at < sorted.items.len()
        invariant
            at <= sorted.items@.len(),
            wanted.well_formed(),
            texts(listed@) == values(sorted@).take(at as int),
            hashed@ == Seq::new(at as nat, |i: int| get(wanted@, sorted@[i].0) is Some),
        decreases sorted.items.len() - at,
    {
        let flag = wanted.find(sorted.items[at].0.as_str()).is_some();
        let path = sorted.items[at].1.clone();
        proof {
            assert(sorted@[at as int] == (sorted.items@[at as int].0@, sorted.items@[at as int].1@));
            crate::text::texts_push(listed@, path);
            assert(values(sorted@).take(at as int + 1) =~= values(sorted@).take(at as int).push(path@));
            assert(hashed@.push(flag) =~= Seq::new(
                (at + 1) as nat,
                |i: int| get(wanted@, sorted@[i].0) is Some,
            ));
        }
        listed.push(path);
        hashed.push(flag);
        at += 1;
    }
    proof {
        assert(values(sorted@).take(at as int) =~= values(sorted@));
        assert(texts(listed@).len() == listed@.len());
    }
    Ok(WritePlan { mount_point, paths: listed, hashed })
}

/// The digests of the sources that are to be hashed, among the first `count`.
pub open spec fn source_digests(plan: WritePlanView, files: Seq<PakWriteEntryView>, count: int) -> Seq<
    (Seq<char>, Seq<char>),
>
    decreases count,
{
    if count <= 0 {
        Seq::empty()
    } else if plan.hashed[count - 1] {
        source_digests(plan, files, count - 1).push(
            (files[count - 1].path, hex_text(sha256_digest(files[count - 1].data))),
        )
    } else {
        source_digests(plan, files, count - 1)
    }
}

/// `files` are what `provider` gives for the first paths of a plan.
pub open spec fn provided<F: Fn(&str) -> Result<Vec<u8>>>(
    provider: F,
    paths: Seq<String>,
    files: Seq<PakWriteEntry>,
) -> bool {
    files.len() <= paths.len() && forall|i: int|
        0 <= i < files.len() ==> #[trigger] files[i].path@ == paths[i]@ && exists|data: Vec<u8>|
            #[trigger] data@ == files[i].data@ && exists|asked: &str| #[trigger] asked@ == paths[i]@
                && call_ensures(provider, (asked,), Ok(data))
}

/// `provider` gives bytes for `path`.
pub open spec fn answered<F: Fn(&str) -> Result<Vec<u8>>>(provider: F, path: Seq<char>) -> bool {
    exists|asked: &str, data: Vec<u8>| #[trigger]
        call_ensures(provider, (asked,), Ok(data)) && asked@ == path
}

/// `provider` fails with `error` for `path`.
pub open spec fn failed<F: Fn(&str) -> Result<Vec<u8>>>(
    provider: F,
    path: Seq<char>,
    error: PakError,
) -> bool {
    exists|asked: &str| #[trigger] call_ensures(provider, (asked,), Err(error)) && asked@ == path
}

/// `error` is the first failure: `provider` gives bytes for every path before `at`,
/// and fails with it at `at`.
pub open spec fn first_failed<F: Fn(&str) -> Result<Vec<u8>>>(
    provider: F,
    paths: Seq<Seq<char>>,
    at: int,
    error: PakError,
) -> bool {
    &&& 0 <= at < paths.len()
    &&& failed(provider, paths[at], error)
    &&& forall|i: int| 0 <= i < at ==> #[trigger] answered(provider, paths[i])
}

/// Asks `provider` once for each path of a plan, in the order of the plan, and
/// stops where it fails.
pub fn collect_sources<F: Fn(&str) -> Result<Vec<u8>>>(plan: &WritePlan, provider: F) -> (result: Result<
    WriteOrder,
>)
    requires
        plan.paths@.len() == plan.hashed@.len(),
        forall|path: &str| #[trigger] call_requires(provider, (path,)),
    ensures
        match result {
            Ok(order) => {
                &&& order.mount_point@ == plan.mount_point@
                &&& order.entries@.len() == plan.paths@.len()
                &&& provided(provider, plan.paths@, order.entries@)
                &&& order@.source_sha256 == source_digests(
                    plan@,
                    order@.entries,
                    plan.paths@.len() as int,
                )
            },
            Err(error) => exists|at: int| #[trigger]
                first_failed(provider, texts(plan.paths@), at, error),
        },
{
    let mut entries: Vec<PakWriteEntry> = Vec::new();
    let mut source_sha256: Vec<(String, String)> = Vec::new();
    proof {
        assert(digest_views(source_sha256@) =~= Seq::empty());
    }
    while entries.len() < plan.paths.len()
        invariant
            plan.paths@.len() == plan.hashed@.len(),
            forall|path: &str| #[trigger] call_requires(provider, (path,)),
            entries@.len() <= plan.paths@.len(),
            provided(provider, plan.paths@, entries@),
            digest_views(source_sha256@) == source_digests(
                plan@,
                write_views(entries@),
                entries@.len() as int,
            ),
        decreases plan.paths.len() - entries.len(),
    {
        let at: usize = entries.len();
        let asked = plan.paths[at].as_str();
        let data = match provider(asked) {
            Ok(data) => data,
            Err(error) => {
                proof {
                    let paths = texts(plan.paths@);
                    assert(asked@ == plan.paths@[at as int]@);
                    assert(failed(provider, paths[at as int], error));
                    assert forall|i: int| 0 <= i < at implies #[trigger] answered(
                        provider,
                        paths[i],
                    ) by {
                        assert(entries@[i].path@ == plan.paths@[i]@);
                    }
                    assert(first_failed(provider, paths, at as int, error));
                }
                return Err(error);
            },
        };
        let ghost given = data;
        let file = PakWriteEntry { path: plan.paths[at].clone(), data };
        if plan.hashed[at] {
            let digest = (
                plan.paths[at].clone(),
                hex_encode(sha256_of(file.data.as_slice()).as_slice()),
            );
            proof {
                assert(digest_views(source_sha256@.push(digest)) =~= digest_views(
                    source_sha256@,
                ).push((digest.0@, digest.1@)));
            }
            source_sha256.push(digest);
        }
        let ghost before = entries@;
        entries.push(file);
        proof {
            let files = write_views(entries@);
            digests_ignore_later(plan@, write_views(before), files, at as int);
            assert(files[at as int] == file@);
            assert(plan@.hashed[at as int] == plan.hashed@[at as int]);
            assert(given@ == entries@[at as int].data@);
            assert(asked@ == plan.paths@[at as int]@);
            assert forall|i: int| 0 <= i < entries@.len() implies #[trigger] entries@[i].path@
                == plan.paths@[i]@ && exists|data: Vec<u8>|
                #[trigger] data@ == entries@[i].data@ && exists|asked: &str| #[trigger] asked@
                    == plan.paths@[i]@ && call_ensures(provider, (asked,), Ok(data)) by {
                if i < at {
                    assert(entries@[i] == before[i]);
                    assert(before[i].path@ == plan.paths@[i]@);
                }
            }
        }
    }
    Ok(WriteOrder { mount_point: plan.mount_point.clone(), entries, source_sha256 })
}

/// Files that follow do not change the digests of those before.
proof fn digests_ignore_later(
    plan: WritePlanView,
    before: Seq<PakWriteEntryView>,
    after: Seq<PakWriteEntryView>,
    count: int,
)
    requires
        0 <= count <= before.len() <= after.len(),
        forall|i: int| 0 <= i < before.len() ==> #[trigger] before[i] == after[i],
    ensures
        source_digests(plan, before, count) == source_digests(plan, after, count),
    decreases count,
{
    if count > 0 {
        digests_ignore_later(plan, before, after, count - 1);
        assert(before[count - 1] == after[count - 1]);
    }
}

/// What is written from what `provider` gives for the paths of a plan: every file
/// that it gives, or the first failure that it reports.
pub open spec fn written_from<F: Fn(&str) -> Result<Vec<u8>>>(
    provider: F,
    plan: std::result::Result<WritePlanView, PakErrorView>,
    result: Result<WriteOrder>,
) -> bool {
    match (result, plan) {
        (Ok(order), Ok(plan)) => {
            &&& order.mount_point@ == plan.mount_point
            &&& order.entries@.len() == plan.paths.len()
            &&& exists|listed: Seq<String>|
                texts(listed) == plan.paths && #[trigger] provided(provider, listed, order.entries@)
            &&& order@.source_sha256 == source_digests(
                plan,
                order@.entries,
                plan.paths.len() as int,
            )
        },
        (Err(error), Ok(plan)) => exists|at: int| #[trigger]
            first_failed(provider, plan.paths, at, error),
        (Err(error), Err(wanted)) => error@ == wanted,
        (Ok(_), Err(_)) => false,
    }
}

/// The order in which an archive of version 11 is written from what `provider`
/// gives for each path, with the digests of the sources that are to be hashed.
pub fn write_pak_v11_from_mapped_provider_with_source_hashes<F: Fn(&str) -> Result<Vec<u8>>>(
    mount_point: &str,
    paths: &Vec<String>,
    compression: OutputCompression,
    oodle_failure: &Option<String>,
    provider: F,
    source_hash_paths: &Vec<String>,
    cancelled: bool,
) -> (result: Result<WriteOrder>)
    requires
        forall|path: &str| #[trigger] call_requires(provider, (path,)),
    ensures
        written_from(
            provider,
            (if cancelled {
                Err(PakErrorView::Cancelled)
            } else {
                write_plan(
                    mount_point@,
                    texts(paths@),
                    texts(source_hash_paths@),
                    compression,
                    text_view(*oodle_failure),
                )
            }),
            result,
        ),
{
    let plan = prepare_write(
        mount_point,
        paths,
        source_hash_paths,
        compression,
        oodle_failure,
        cancelled,
    )?;
    let result = collect_sources(&plan, provider);
    let ghost shown = result;
    proof {
        let wanted = write_plan(
            mount_point@,
            texts(paths@),
            texts(source_hash_paths@),
            compression,
            text_view(*oodle_failure),
        );
        assert(wanted is Ok && wanted->Ok_0 == plan@);
        assert(texts(plan.paths@).len() == plan.paths@.len());
        match shown {
            Ok(order) => {
                assert(provided(provider, plan.paths@, order.entries@));
            },
            Err(error) => {
                let at = choose|at: int| #[trigger]
                    first_failed(provider, texts(plan.paths@), at, error);
                assert(first_failed(provider, plan@.paths, at, error));
            },
        }
    }
    result
}

/// The order in which an uncompressed archive of version 11 is written from
/// what `provider` gives for each path.
pub fn write_pak_v11_from_provider<F: Fn(&str) -> Result<Vec<u8>>>(
    mount_point: &str,
    paths: &Vec<String>,
    provider: F,
) -> (result: Result<WriteOrder>)
    requires
        forall|path: &str| #[trigger] call_requires(provider, (path,)),
    ensures
        written_from(
            provider,
            write_plan(mount_point@, texts(paths@), Seq::empty(), OutputCompression::Uncompressed, None),
            result,
        ),
{
    let none: Vec<String> = Vec::new();
    proof {
        assert(texts(none@) =~= Seq::empty());
    }
    write_pak_v11_from_mapped_provider_with_source_hashes(
        mount_point,
        paths,
        OutputCompression::Uncompressed,
        &None,
        provider,
        &none,
        false,
    )
}

#[derive(Debug, Clone, PartialEq, Eq)]
pub enum PakOpenProgress {
    Scanning { completed_bytes: u64, total_bytes: u64 },
    Decoding { completed_bytes: u64, total_bytes: u64, current_path: Option<String> },
}

#[derive(Debug)]
#[allow(inconsistent_fields)]
pub enum PakWriteProgress {
    Writing { completed: usize, total: usize, current_path: Option<String> },
    WritingBytes { completed_bytes: u64, total_bytes: u64, current_path: String },
    Verifying,
    VerificationProgress { completed_bytes: u64, total_bytes: u64, current_path: Option<String> },
}

/// What is reported while a written archive is opened again.
pub fn verification_progress(event: PakOpenProgress) -> (result: PakWriteProgress)
    ensures
        match event {
            PakOpenProgress::Scanning { completed_bytes, total_bytes } => result
                == (PakWriteProgress::VerificationProgress {
                completed_bytes,
                total_bytes,
                current_path: None,
            }),
            PakOpenProgress::Decoding { completed_bytes, total_bytes, current_path } => result
                == (PakWriteProgress::VerificationProgress {
                completed_bytes,
                total_bytes,
                current_path,
            }),
        },
{
    match event {
        PakOpenProgress::Scanning { completed_bytes, total_bytes } => {
            PakWriteProgress::VerificationProgress {
                completed_bytes,
                total_bytes,
                current_path: None,
            }
        },
        PakOpenProgress::Decoding { completed_bytes, total_bytes, current_path } => {
            PakWriteProgress::VerificationProgress { completed_bytes, total_bytes, current_path }
        },
    }
}

/// An archive is scanned in pieces of this many bytes.
pub const COPY_BUFFER_BYTES: usize = 8_388_608;

/// What is told once so many pieces of an archive are scanned.
pub open spec fn scan_report(pieces: int, archive_size: u64, total_bytes: u64) -> PakOpenProgress {
    PakOpenProgress::Scanning {
        completed_bytes: if pieces * COPY_BUFFER_BYTES < archive_size {
            (pieces * COPY_BUFFER_BYTES) as u64
        } else {
            archive_size
        },
        total_bytes,
    }
}

/// Into how many pieces an archive falls.
pub open spec fn piece_count(archive_size: u64) -> int {
    (archive_size + COPY_BUFFER_BYTES - 1) / COPY_BUFFER_BYTES as int
}

/// Everything that is told while an archive is scanned, as part of so many bytes of
/// work: that it begins, and then every piece.
pub fn scan_reports(archive_size: u64, total_bytes: u64) -> (reports: Vec<PakOpenProgress>)
    ensures
        reports@ == Seq::new(
            (piece_count(archive_size) + 1) as nat,
            |pieces: int| scan_report(pieces, archive_size, total_bytes),
        ),
{
    let mut reports: Vec<PakOpenProgress> = Vec::new();
    reports.push(PakOpenProgress::Scanning { completed_bytes: 0, total_bytes });
    let mut offset: u64 = 0;
    let ghost mut pieces: int = 0;
    while offset < archive_size
        invariant
            0 <= pieces <= piece_count(archive_size),
            offset <= archive_size,
            offset < archive_size ==> offset == pieces * COPY_BUFFER_BYTES,
            offset == archive_size ==> pieces == piece_count(archive_size),
            reports@ == Seq::new(
                (pieces + 1) as nat,
                |pieces: int| scan_report(pieces, archive_size, total_bytes),
            ),
        decreases archive_size - offset,
    {
        offset = if archive_size - offset < COPY_BUFFER_BYTES as u64 {
            archive_size
        } else {
            offset + COPY_BUFFER_BYTES as u64
        };
        reports.push(PakOpenProgress::Scanning { completed_bytes: offset, total_bytes });
        proof {
            pieces = pieces + 1;
            assert(reports@ =~= Seq::new(
                (pieces + 1) as nat,
                |pieces: int| scan_report(pieces, archive_size, total_bytes),
            ));
        }
    }
    reports
}

/// A scan is told of from its first byte to its last.
pub proof fn scans_are_told_whole(archive_size: u64, total_bytes: u64)
    ensures
        piece_count(archive_size) >= 0,
        scan_report(0, archive_size, total_bytes) == (PakOpenProgress::Scanning {
            completed_bytes: 0,
            total_bytes,
        }),
        scan_report(piece_count(archive_size), archive_size, total_bytes)
            == (PakOpenProgress::Scanning { completed_bytes: archive_size, total_bytes }),
        forall|i: int, j: int|
            0 <= i < j <= piece_count(archive_size) ==> (#[trigger] scan_report(
                i,
                archive_size,
                total_bytes,
            ))->Scanning_completed_bytes < (#[trigger] scan_report(j, archive_size, total_bytes))->Scanning_completed_bytes,
{
}

/// Reports of one file are at least this many bytes apart.
pub const PROGRESS_REPORT_STEP: u64 = 4_194_304;

/// Which of the steps of one file are reported.
#[derive(Debug, Clone, Copy, PartialEq, Eq, Structural)]
pub struct ProgressGate {
    pub last_reported: u64,
    pub reported_initial: bool,
}

impl ProgressGate {
    pub fn new() -> (gate: Self)
        ensures
            gate.last_reported == 0,
            !gate.reported_initial,
    {
        ProgressGate { last_reported: 0, reported_initial: false }
    }

    /// While a file is decoded: the start once, the end, and steps far enough
    /// from the last report.
    pub fn admits_decoding(&mut self, completed: u64, size: u64) -> (result: bool)
        ensures
            result == if completed == 0 {
                !old(self).reported_initial
            } else {
                completed == size || completed - old(self).last_reported >= PROGRESS_REPORT_STEP
            },
            *final(self) == if result {
                ProgressGate { last_reported: completed, reported_initial: true }
            } else {
                *old(self)
            },
    {
        let report = if completed == 0 {
            !self.reported_initial
        } else {
            completed == size || completed.saturating_sub(self.last_reported)
                >= PROGRESS_REPORT_STEP
        };
        if report {
            self.reported_initial = true;
            self.last_reported = completed;
        }
        report
    }

    /// While a file is written: the start, the end, and steps far enough from
    /// the last report.
    pub fn admits_writing(&mut self, completed: u64, total: u64) -> (result: bool)
        ensures
            result == (completed == 0 || completed == total || completed - old(self).last_reported
                >= PROGRESS_REPORT_STEP),
            *final(self) == if result {
                ProgressGate { last_reported: completed, ..*old(self) }
            } else {
                *old(self)
            },
    {
        let report = completed == 0 || completed == total || completed.saturating_sub(
            self.last_reported,
        ) >= PROGRESS_REPORT_STEP;
        if report {
            self.last_reported = completed;
        }
        report
    }
}

/// Files under their keys.
pub open spec fn under_keys(files: Seq<PakWriteEntryView>) -> Seq<(Seq<char>, PakWriteEntryView)> {
    files.map_values(|file: PakWriteEntryView| (sort_key_of(file.path), file))
}

proof fn met_files_are_the_given(
    met: Seq<(Seq<char>, PakWriteEntryView)>,
    rest: Seq<PakWriteEntryView>,
)
    requires
        ascending(met),
    ensures
        files_from(met, rest) matches Ok(all) ==> ascending(all) && all.to_multiset()
            == met.to_multiset().add(under_keys(rest).to_multiset()),
    decreases rest.len(),
{
    broadcast use vstd::seq_lib::group_to_multiset_ensures;

    let keyed = under_keys(rest);
    if rest.len() == 0 {
        assert(keyed =~= Seq::empty());
        assert(met.to_multiset().add(keyed.to_multiset()) =~= met.to_multiset());
    } else {
        match normal_path(rest[0].path) {
            Err(_) => {},
            Ok(path) => {
                let key = sort_key_of(path);
                if get(met, key) is None {
                    let item = PakWriteEntryView { path, data: rest[0].data };
                    let at = slot(met, key);
                    slot_parts(met, key);
                    put_keeps_order(met, key, item);
                    assert(put(met, key, item) == met.insert(at, (key, item)));
                    inserting_adds_one(met, at, (key, item));
                    met_files_are_the_given(put(met, key, item), rest.skip(1));
                    assert(keyed[0] == (key, item));
                    assert(keyed =~= seq![(key, item)] + under_keys(rest.skip(1)));
                    vstd::seq_lib::lemma_multiset_commutative(
                        seq![(key, item)],
                        under_keys(rest.skip(1)),
                    );
                    assert(seq![(key, item)].to_multiset() =~= vstd::multiset::Multiset::empty().insert(
                        (key, item),
                    )) by {
                        assert(seq![(key, item)] =~= Seq::empty().push((key, item)));
                    }
                    assert(put(met, key, item).to_multiset().add(
                        under_keys(rest.skip(1)).to_multiset(),
                    ) =~= met.to_multiset().add(keyed.to_multiset()));
                }
            },
        }
    }
}

/// An archive holds exactly the files that it was given, each once, in the order
/// of their keys.
pub proof fn given_files_are_written_once_in_order(
    mount: Seq<char>,
    files: Seq<PakWriteEntryView>,
)
    ensures
        order_of(mount, files) matches Ok(order) ==> order.entries.to_multiset()
            == files.to_multiset() && ascending(under_keys(order.entries)),
{
    broadcast use vstd::seq_lib::group_to_multiset_ensures;

    met_files_are_the_given(Seq::empty(), files);
    match order_of(mount, files) {
        Err(_) => {},
        Ok(order) => {
            let met = files_from(Seq::empty(), files)->Ok_0;
            let none = Seq::<(Seq<char>, PakWriteEntryView)>::empty();
            assert(none.to_multiset().add(under_keys(files).to_multiset())
                =~= under_keys(files).to_multiset());
            values_of_equal_bags(met, under_keys(files));
            assert(values(under_keys(files)) =~= files);
            keys_follow_the_files(Seq::empty(), files);
            assert(under_keys(values(met)) =~= met);
        },
    }
}

proof fn keys_follow_the_files(
    met: Seq<(Seq<char>, PakWriteEntryView)>,
    rest: Seq<PakWriteEntryView>,
)
    requires
        forall|i: int| 0 <= i < met.len() ==> (#[trigger] met[i]).0 == sort_key_of(met[i].1.path),
    ensures
        files_from(met, rest) matches Ok(all) ==> forall|i: int|
            0 <= i < all.len() ==> (#[trigger] all[i]).0 == sort_key_of(all[i].1.path),
    decreases rest.len(),
{
    if rest.len() > 0 {
        match normal_path(rest[0].path) {
            Err(_) => {},
            Ok(path) => {
                let key = sort_key_of(path);
                let item = PakWriteEntryView { path, data: rest[0].data };
                if get(met, key) is None {
                    let at = slot(met, key);
                    slot_parts(met, key);
                    let more = put(met, key, item);
                    assert(more == met.insert(at, (key, item)));
                    assert forall|i: int| 0 <= i < more.len() implies (#[trigger] more[i]).0
                        == sort_key_of(more[i].1.path) by {
                        if i < at {
                            assert(more[i] == met[i]);
                        } else if i > at {
                            assert(more[i] == met[i - 1]);
                        }
                    }
                    keys_follow_the_files(more, rest.skip(1));
                }
            },
        }
    }
}

/// Whether the rest of the files may stand beside those that were met: every path may
/// stand in a Pak, and no two of them have the same key.
pub open spec fn files_accepted(
    met: Seq<(Seq<char>, PakWriteEntryView)>,
    rest: Seq<PakWriteEntryView>,
) -> bool {
    &&& forall|i: int| 0 <= i < rest.len() ==> normal_path((#[trigger] rest[i]).path) is Ok
    &&& forall|i: int|
        0 <= i < rest.len() ==> get(met, sort_key_of((#[trigger] rest[i]).path)) is None
    &&& forall|i: int, j: int|
        0 <= i < j < rest.len() ==> sort_key_of((#[trigger] rest[i]).path) != sort_key_of(
            (#[trigger] rest[j]).path,
        )
}

/// Files are taken exactly when their paths may stand in a Pak and have keys of their
/// own.
pub proof fn acceptable_files_are_taken(
    met: Seq<(Seq<char>, PakWriteEntryView)>,
    rest: Seq<PakWriteEntryView>,
)
    requires
        ascending(met),
    ensures
        files_from(met, rest) is Ok <==> files_accepted(met, rest),
    decreases rest.len(),
{
    if rest.len() > 0 {
        match normal_path(rest[0].path) {
            Err(_) => {},
            Ok(path) => {
                let key = sort_key_of(path);
                if get(met, key) is None {
                    let file = PakWriteEntryView { path, data: rest[0].data };
                    let more = put(met, key, file);
                    let tail = rest.skip(1);
                    put_keeps_order(met, key, file);
                    acceptable_files_are_taken(more, tail);
                    assert forall|i: int| 0 < i < rest.len() implies rest[i] == #[trigger] tail[i
                        - 1] by {}
                    assert forall|i: int| 0 <= i < tail.len() implies (get(
                        more,
                        sort_key_of((#[trigger] tail[i]).path),
                    ) is None <==> get(met, sort_key_of(rest[i + 1].path)) is None && sort_key_of(
                        rest[i + 1].path,
                    ) != key) by {
                        put_then_get(met, key, file, sort_key_of(tail[i].path));
                    }
                    one_more_file(met, more, rest, key);
                }
            },
        }
    }
}

proof fn one_more_file(
    met: Seq<(Seq<char>, PakWriteEntryView)>,
    more: Seq<(Seq<char>, PakWriteEntryView)>,
    rest: Seq<PakWriteEntryView>,
    key: Seq<char>,
)
    requires
        rest.len() > 0,
        normal_path(rest[0].path) is Ok,
        key == sort_key_of(rest[0].path),
        get(met, key) is None,
        forall|i: int|
            0 <= i < rest.skip(1).len() ==> (get(
                more,
                sort_key_of((#[trigger] rest.skip(1)[i]).path),
            ) is None <==> get(met, sort_key_of(rest[i + 1].path)) is None && sort_key_of(
                rest[i + 1].path,
            ) != key),
    ensures
        files_accepted(met, rest) <==> files_accepted(more, rest.skip(1)),
{
    let tail = rest.skip(1);
    if files_accepted(met, rest) {
        assert forall|i: int| 0 <= i < tail.len() implies normal_path((#[trigger] tail[i]).path) is Ok
            && get(more, sort_key_of(tail[i].path)) is None by {
            assert(tail[i] == rest[i + 1]);
            assert(sort_key_of(rest[0].path) != sort_key_of(rest[i + 1].path));
        }
        assert forall|i: int, j: int| 0 <= i < j < tail.len() implies sort_key_of(
            (#[trigger] tail[i]).path,
        ) != sort_key_of((#[trigger] tail[j]).path) by {
            assert(tail[i] == rest[i + 1] && tail[j] == rest[j + 1]);
        }
    }
    if files_accepted(more, tail) {
        assert forall|i: int| 0 <= i < rest.len() implies normal_path((#[trigger] rest[i]).path) is Ok
            && get(met, sort_key_of(rest[i].path)) is None by {
            if i > 0 {
                assert(rest[i] == tail[i - 1]);
                assert(get(more, sort_key_of(tail[i - 1].path)) is None);
            }
        }
        assert forall|i: int, j: int| 0 <= i < j < rest.len() implies sort_key_of(
            (#[trigger] rest[i]).path,
        ) != sort_key_of((#[trigger] rest[j]).path) by {
            assert(rest[j] == tail[j - 1]);
            if i > 0 {
                assert(rest[i] == tail[i - 1]);
            } else {
                assert(get(more, sort_key_of(tail[j - 1].path)) is None);
            }
        }
    }
}

proof fn order_does_not_decide_acceptance(left: Seq<PakWriteEntryView>, right: Seq<PakWriteEntryView>)
    requires
        left.to_multiset() == right.to_multiset(),
        files_accepted(Seq::empty(), left),
    ensures
        files_accepted(Seq::empty(), right),
{
    broadcast use vstd::seq_lib::group_to_multiset_ensures;

    assert forall|i: int| 0 <= i < right.len() implies left.contains(#[trigger] right[i]) by {
        assert(right.contains(right[i]));
        assert(left.to_multiset().count(right[i]) > 0);
    }
    assert(left.no_duplicates()) by {
        assert forall|i: int, j: int| 0 <= i < left.len() && 0 <= j < left.len() && i
            != j implies left[i] != left[j] by {
            if i < j {
                assert(sort_key_of(left[i].path) != sort_key_of(left[j].path));
            } else {
                assert(sort_key_of(left[j].path) != sort_key_of(left[i].path));
            }
        }
    }
    left.lemma_multiset_has_no_duplicates();
    right.lemma_multiset_has_no_duplicates_conv();
    assert forall|i: int| 0 <= i < right.len() implies normal_path((#[trigger] right[i]).path) is Ok by {
        let at = choose|at: int| 0 <= at < left.len() && left[at] == right[i];
        assert(normal_path(left[at].path) is Ok);
    }
    assert forall|i: int, j: int| 0 <= i < j < right.len() implies sort_key_of(
        (#[trigger] right[i]).path,
    ) != sort_key_of((#[trigger] right[j]).path) by {
        let first = choose|at: int| 0 <= at < left.len() && left[at] == right[i];
        let second = choose|at: int| 0 <= at < left.len() && left[at] == right[j];
        assert(right[i] != right[j]);
        if first < second {
            assert(sort_key_of(left[first].path) != sort_key_of(left[second].path));
        } else {
            assert(sort_key_of(left[second].path) != sort_key_of(left[first].path));
        }
    }
}

/// The same files in another order make the same archive.
pub proof fn the_order_of_files_does_not_matter(
    mount: Seq<char>,
    left: Seq<PakWriteEntryView>,
    right: Seq<PakWriteEntryView>,
)
    requires
        left.to_multiset() == right.to_multiset(),
        order_of(mount, left) is Ok,
    ensures
        order_of(mount, left) == order_of(mount, right),
{
    broadcast use vstd::seq_lib::group_to_multiset_ensures;

    let first = order_of(mount, left)->Ok_0;
    given_files_are_written_once_in_order(mount, left);
    acceptable_files_are_taken(Seq::empty(), left);
    order_does_not_decide_acceptance(left, right);
    acceptable_files_are_taken(Seq::empty(), right);
    met_files_are_the_given(Seq::empty(), right);
    let met = files_from(Seq::empty(), right)->Ok_0;
    assert(met.len() == right.len()) by {
        assert(met.to_multiset().len() == met.len());
        assert(under_keys(right).to_multiset().len() == right.len());
        let none = Seq::<(Seq<char>, PakWriteEntryView)>::empty();
        assert(none.to_multiset().add(under_keys(right).to_multiset())
            =~= under_keys(right).to_multiset());
    }
    assert(left.len() == right.len()) by {
        assert(left.to_multiset().len() == left.len());
        assert(right.to_multiset().len() == right.len());
    }
    assert(first.entries.len() == left.len()) by {
        assert(first.entries.to_multiset().len() == first.entries.len());
        assert(left.to_multiset().len() == left.len());
    }
    assert(order_of(mount, right) is Ok);
    let second = order_of(mount, right)->Ok_0;
    given_files_are_written_once_in_order(mount, right);
    bags_under_keys(first.entries, second.entries);
    ascending_order_is_unique(under_keys(first.entries), under_keys(second.entries));
    assert(values(under_keys(first.entries)) =~= first.entries);
    assert(values(under_keys(second.entries)) =~= second.entries);
}

proof fn bags_under_keys(left: Seq<PakWriteEntryView>, right: Seq<PakWriteEntryView>)
    requires
        left.to_multiset() == right.to_multiset(),
    ensures
        under_keys(left).to_multiset() == under_keys(right).to_multiset(),
    decreases left.len(),
{
    broadcast use vstd::seq_lib::group_to_multiset_ensures;

    assert(left.len() == right.len()) by {
        assert(left.to_multiset().len() == left.len());
        assert(right.to_multiset().len() == right.len());
    }
    if left.len() > 0 {
        let file = left.last();
        assert(left[left.len() - 1] == file);
        assert(left.contains(file));
        assert(right.to_multiset().count(file) > 0);
        assert(right.contains(file));
        let at = choose|i: int| 0 <= i < right.len() && right[i] == file;
        let most = left.drop_last();
        let rest = right.remove(at);
        assert(left =~= most.push(file));
        assert(most.to_multiset() =~= left.to_multiset().remove(file));
        assert(rest.to_multiset() =~= right.to_multiset().remove(file));
        bags_under_keys(most, rest);
        let item = (sort_key_of(file.path), file);
        assert(under_keys(left) =~= under_keys(most).push(item));
        assert(under_keys(rest) =~= under_keys(right).remove(at));
        assert(under_keys(right)[at] == item);
        assert(under_keys(right).to_multiset() =~= under_keys(rest).to_multiset().insert(item));
    } else {
        assert(under_keys(left) =~= Seq::empty());
        assert(under_keys(right) =~= Seq::empty());
    }
}

} // verus!
