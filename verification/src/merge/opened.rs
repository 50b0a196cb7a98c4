//! The opened inputs of a job, brought under one base folder.
use vstd::prelude::*;

use super::error::{
    in_merge, invalid_request, seen, MergeError, MergeErrorView, Outcome, Result,
};
use super::ids::{folded, join, join_range, joined, same_path, sort_key, eq_ignore_ascii_case};
use super::request::{PathName, PathNameView};
use super::types::{AnalysisRequest, AnalysisRequestView, InputDescriptor, InputDescriptorView};
use crate::lists::{views, views_push};
use crate::ordered::{get, put, OrderedMap};
use crate::pak::archive::{inventory_views, PakEntryInventoryView, PakInventoryView};
use crate::pak::open::{PakArchive, PakArchiveView};
use crate::pak::paths::{
    component_fault, group_packages, grouped, head_len, head_len_bounds, normal_mount,
    normal_path, normalize_entry_path, normalize_mount_point, PackageGrouping,
    PackageGroupingView,
};
use crate::text::{cat2, cat3, cat5, chars_of, same_but_case, same_text, text_of, texts, texts_push, text_view};

verus! {

/// What a file's metadata says of it. The time is in nanoseconds from the Unix
/// epoch.
#[derive(Debug, Clone, Copy, PartialEq, Eq, Structural)]
pub struct FileStamp {
    pub len: u64,
    pub modified: Option<i128>,
}

/// An opened archive and the state of its file: when it was opened, and now.
#[derive(Debug)]
pub struct InputArchive<'a> {
    pub archive: PakArchive<'a>,
    pub source_modified: Option<i128>,
    /// Nothing where the metadata could not be read.
    pub stamp: Option<FileStamp>,
}

#[verifier::ext_equal]
pub struct InputArchiveView {
    pub archive: PakArchiveView,
    pub source_modified: Option<i128>,
    pub stamp: Option<FileStamp>,
}

impl<'a> View for InputArchive<'a> {
    type V = InputArchiveView;

    open spec fn view(&self) -> InputArchiveView {
        InputArchiveView {
            archive: self.archive@,
            source_modified: self.source_modified,
            stamp: self.stamp,
        }
    }
}

/// An input of a job. Its files have canonical paths, below the base folder that
/// all inputs share.
#[derive(Debug)]
pub struct OpenedPak<'a> {
    pub descriptor: InputDescriptor,
    pub archive: PakArchive<'a>,
    pub source_modified: Option<i128>,
    pub canonical_mount_point: String,
    pub canonical_packages: PackageGrouping,
    /// For the key of each canonical path the file's place in the inventory.
    pub entry_index: OrderedMap<usize>,
}

#[verifier::ext_equal]
pub struct OpenedPakView {
    pub descriptor: InputDescriptorView,
    pub archive: PakArchiveView,
    pub source_modified: Option<i128>,
    pub canonical_mount_point: Seq<char>,
    pub canonical_packages: PackageGroupingView,
    pub entry_index: Seq<(Seq<char>, usize)>,
}

impl<'a> View for OpenedPak<'a> {
    type V = OpenedPakView;

    open spec fn view(&self) -> OpenedPakView {
        OpenedPakView {
            descriptor: self.descriptor@,
            archive: self.archive@,
            source_modified: self.source_modified,
            canonical_mount_point: self.canonical_mount_point@,
            canonical_packages: self.canonical_packages@,
            entry_index: self.entry_index@,
        }
    }
}

impl<'a> OpenedPak<'a> {
    pub open spec fn well_formed(&self) -> bool {
        &&& self.archive.well_formed()
        &&& self.entry_index.well_formed()
    }
}

pub open spec fn all_well_formed(opened: Seq<OpenedPak>) -> bool {
    forall|i: int| 0 <= i < opened.len() ==> (#[trigger] opened[i]).well_formed()
}

/// The parts of a text between its separators.
pub open spec fn parts_of(text: Seq<char>) -> Seq<Seq<char>>
    decreases text.len(),
    via parts_of_decreases
{
    let end = head_len(text);
    if end >= text.len() {
        seq![text]
    } else {
        seq![text.take(end)] + parts_of(text.skip(end + 1))
    }
}

#[via_fn]
proof fn parts_of_decreases(text: Seq<char>) {
    head_len_bounds(text);
}

proof fn head_len_is(text: Seq<char>, at: int)
    requires
        0 <= at <= text.len(),
        forall|i: int| 0 <= i < at ==> text[i] != '/',
        at < text.len() ==> text[at] == '/',
    ensures
        head_len(text) == at,
    decreases text.len(),
{
    if at > 0 {
        let rest = text.skip(1);
        assert forall|i: int| 0 <= i < at - 1 implies rest[i] != '/' by {
            assert(rest[i] == text[i + 1]);
        }
        head_len_is(rest, at - 1);
    }
}

/// Splits a text at its separators.
pub fn split_parts(text: &str) -> (result: Vec<String>)
    ensures
        texts(result@) == parts_of(text@),
{
    let chars = chars_of(text);
    let mut result: Vec<String> = Vec::new();
    let mut from: usize = 0;
    let mut at: usize = 0;
    proof {
        assert(text@.skip(0) =~= text@);
        assert(texts(result@) + parts_of(text@) =~= parts_of(text@));
    }
    while at < chars.len()
        invariant
            from <= at <= chars@.len(),
            chars@ == text@,
            forall|i: int| from <= i < at ==> chars@[i] != '/',
            texts(result@) + parts_of(text@.skip(from as int)) == parts_of(text@),
        decreases chars.len() - at,
    {
        if chars[at] == '/' {
            let part = text_of(&chars, from, at);
            proof {
                let tail = text@.skip(from as int);
                assert forall|i: int| 0 <= i < at - from implies tail[i] != '/' by {
                    assert(tail[i] == chars@[from + i]);
                }
                head_len_is(tail, at - from);
                assert(tail.take(at - from) =~= part@);
                assert(tail.skip(at - from + 1) =~= text@.skip(at as int + 1));
                texts_push(result@, part);
                assert(texts(result@).push(part@) + parts_of(text@.skip(at as int + 1)) =~= texts(
                    result@,
                ) + (seq![part@] + parts_of(text@.skip(at as int + 1))));
            }
            result.push(part);
            from = at + 1;
        }
        at += 1;
    }
    let part = text_of(&chars, from, chars.len());
    proof {
        let tail = text@.skip(from as int);
        assert forall|i: int| 0 <= i < tail.len() implies tail[i] != '/' by {
            assert(tail[i] == chars@[from + i]);
        }
        head_len_is(tail, tail.len() as int);
        assert(part@ =~= tail);
        texts_push(result@, part);
        assert(texts(result@).push(part@) =~= texts(result@) + seq![part@]);
    }
    result.push(part);
    result
}

/// A text without the separators at its end.
pub open spec fn trimmed(text: Seq<char>) -> Seq<char>
    decreases text.len(),
{
    if text.len() > 0 && text.last() == '/' {
        trimmed(text.drop_last())
    } else {
        text
    }
}

pub fn trim_end_slashes(text: &str) -> (result: String)
    ensures
        result@ == trimmed(text@),
{
    let chars = chars_of(text);
    let mut end: usize = chars.len();
    assert(text@.take(end as int) =~= text@);
    while end > 0 && chars[end - 1] == '/'
        invariant
            end <= chars@.len(),
            chars@ == text@,
            trimmed(text@) == trimmed(text@.take(end as int)),
        decreases end,
    {
        assert(text@.take(end as int).drop_last() =~= text@.take(end as int - 1));
        end -= 1;
    }
    let result = text_of(&chars, 0, end);
    assert(chars@.subrange(0, end as int) =~= text@.take(end as int));
    result
}

/// The parts of a base folder, once a folder is named after the leading `..`
/// parts and nothing leads out of it again.
pub open spec fn mount_parts_from(
    done: Seq<Seq<char>>,
    named: bool,
    rest: Seq<Seq<char>>,
    mount: Seq<char>,
) -> Outcome<Seq<Seq<char>>>
    decreases rest.len(),
{
    if rest.len() == 0 {
        if named {
            Ok(done)
        } else {
            invalid_request("The Pak root path does not name a game folder: "@ + mount)
        }
    } else if rest[0] == "."@ {
        invalid_request("The Pak root path contains an unsafe '.' section: "@ + mount)
    } else if rest[0] == ".."@ {
        if named {
            invalid_request("The Pak root path leaves its game folder through '..': "@ + mount)
        } else {
            mount_parts_from(done.push(rest[0]), named, rest.skip(1), mount)
        }
    } else {
        mount_parts_from(done.push(rest[0]), true, rest.skip(1), mount)
    }
}

/// The parts of a base folder that is safe to merge under.
pub open spec fn mount_parts(mount: Seq<char>) -> Outcome<Seq<Seq<char>>> {
    match normal_mount(mount) {
        Err(error) => Err(MergeErrorView::Pak(error)),
        Ok(normal) => mount_parts_from(Seq::empty(), false, parts_of(trimmed(normal)), mount),
    }
}

/// The outcome of a step that yields a list of texts.
pub open spec fn same_texts_outcome(result: Result<Vec<String>>, wanted: Outcome<Seq<Seq<char>>>) -> bool {
    match (result, wanted) {
        (Ok(list), Ok(expected)) => texts(list@) == expected,
        (Err(error), Err(expected)) => error@ == expected,
        _ => false,
    }
}

pub fn safe_mount_components(mount_point: &str) -> (result: Result<Vec<String>>)
    ensures
        same_texts_outcome(result, mount_parts(mount_point@)),
{
    let normalized = match normalize_mount_point(mount_point) {
        Ok(normalized) => normalized,
        Err(error) => {
            return Err(MergeError::Pak(error));
        },
    };
    let parts = split_parts(trim_end_slashes(normalized.as_str()).as_str());
    let ghost all = texts(parts@);
    let mut components: Vec<String> = Vec::new();
    let mut named = false;
    let mut at: usize = 0;
    proof {
        assert(all.skip(0) =~= all);
        assert(texts(components@) =~= Seq::<Seq<char>>::empty());
    }
    while at < parts.len()
        invariant
            at <= parts@.len(),
            all == texts(parts@),
            mount_parts(mount_point@) == mount_parts_from(
                texts(components@),
                named,
                all.skip(at as int),
                mount_point@,
            ),
        decreases parts.len() - at,
    {
        proof {
            assert(all.skip(at as int)[0] == parts@[at as int]@);
            assert(all.skip(at as int).skip(1) =~= all.skip(at as int + 1));
        }
        let component = parts[at].clone();
        if same_text(component.as_str(), ".") {
            return Err(
                MergeError::InvalidRequest(
                    cat2("The Pak root path contains an unsafe '.' section: ", mount_point),
                ),
            );
        }
        if same_text(component.as_str(), "..") {
            if named {
                return Err(
                    MergeError::InvalidRequest(
                        cat2("The Pak root path leaves its game folder through '..': ", mount_point),
                    ),
                );
            }
        } else {
            named = true;
        }
        proof {
            texts_push(components@, component);
        }
        components.push(component);
        at += 1;
    }
    if !named {
        return Err(
            MergeError::InvalidRequest(
                cat2("The Pak root path does not name a game folder: ", mount_point),
            ),
        );
    }
    Ok(components)
}

/// How many leading parts two lists share, letter case aside, up to `most`.
pub open spec fn shared_len(left: Seq<Seq<char>>, right: Seq<Seq<char>>, most: int) -> int
    decreases most,
{
    if most <= 0 || left.len() == 0 || right.len() == 0 || !same_but_case(left[0], right[0]) {
        0
    } else {
        1 + shared_len(left.skip(1), right.skip(1), most - 1)
    }
}

proof fn shared_len_is(left: Seq<Seq<char>>, right: Seq<Seq<char>>, most: int, at: int)
    requires
        0 <= at <= most,
        at <= left.len(),
        at <= right.len(),
        forall|i: int| 0 <= i < at ==> same_but_case(#[trigger] left[i], right[i]),
        at == most || at == left.len() || at == right.len() || !same_but_case(left[at], right[at]),
    ensures
        shared_len(left, right, most) == at,
    decreases most,
{
    if at > 0 {
        assert(same_but_case(left[0], right[0]));
        let a = left.skip(1);
        let b = right.skip(1);
        assert forall|i: int| 0 <= i < at - 1 implies same_but_case(#[trigger] a[i], b[i]) by {
            assert(a[i] == left[i + 1] && b[i] == right[i + 1]);
            assert(same_but_case(left[i + 1], right[i + 1]));
        }
        if at < left.len() && at < right.len() {
            assert(a[at - 1] == left[at] && b[at - 1] == right[at]);
        }
        shared_len_is(a, b, most - 1, at - 1);
    }
}

fn count_shared(left: &Vec<String>, right: &Vec<String>, most: usize) -> (result: usize)
    requires
        most <= left@.len(),
    ensures
        result == shared_len(texts(left@), texts(right@), most as int),
        result <= most,
        result <= right@.len(),
{
    let mut at: usize = 0;
    while at < most && at < right.len() && eq_ignore_ascii_case(left[at].as_str(), right[at].as_str())
        invariant
            at <= most <= left@.len(),
            at <= right@.len(),
            forall|i: int|
                0 <= i < at ==> same_but_case(#[trigger] texts(left@)[i], texts(right@)[i]),
        decreases most - at,
    {
        proof {
            assert(texts(left@)[at as int] == left@[at as int]@);
            assert(texts(right@)[at as int] == right@[at as int]@);
        }
        at += 1;
    }
    proof {
        if at < most && at < right@.len() {
            assert(texts(left@)[at as int] == left@[at as int]@);
            assert(texts(right@)[at as int] == right@[at as int]@);
        }
        shared_len_is(texts(left@), texts(right@), most as int, at as int);
    }
    at
}

pub open spec fn text_lists(lists: Seq<Vec<String>>) -> Seq<Seq<Seq<char>>> {
    lists.map_values(|list: Vec<String>| texts(list@))
}

/// How many leading parts all base folders share.
pub open spec fn common_len_from(first: Seq<Seq<char>>, common: int, rest: Seq<Seq<Seq<char>>>) -> int
    decreases rest.len(),
{
    if rest.len() == 0 {
        common
    } else {
        common_len_from(first, shared_len(first, rest[0], common), rest.skip(1))
    }
}

/// The parts of the base folders of all inputs.
pub open spec fn all_mount_parts(mounts: Seq<Seq<char>>) -> Outcome<Seq<Seq<Seq<char>>>>
    decreases mounts.len(),
{
    if mounts.len() == 0 {
        Ok(Seq::empty())
    } else {
        match all_mount_parts(mounts.drop_last()) {
            Err(error) => Err(error),
            Ok(done) => match mount_parts(mounts.last()) {
                Err(error) => Err(error),
                Ok(parts) => Ok(done.push(parts)),
            },
        }
    }
}

/// A failure on some leading inputs is the failure on all of them.
proof fn early_mount_fault(mounts: Seq<Seq<char>>, at: int)
    requires
        0 <= at <= mounts.len(),
        all_mount_parts(mounts.take(at)) is Err,
    ensures
        all_mount_parts(mounts) == all_mount_parts(mounts.take(at)),
    decreases mounts.len() - at,
{
    if at == mounts.len() {
        assert(mounts.take(at) =~= mounts);
    } else {
        assert(mounts.take(at + 1).drop_last() =~= mounts.take(at));
        early_mount_fault(mounts, at + 1);
    }
}

/// The base folders of the inputs, as their archives state them.
pub open spec fn mounts_of(opened: Seq<OpenedPakView>) -> Seq<Seq<char>> {
    opened.map_values(|input: OpenedPakView| input.archive.inventory.mount_point)
}

/// The path of a file below the common base folder.
pub open spec fn canonical_path(prefix: Seq<char>, path: Seq<char>) -> Outcome<Seq<char>> {
    if prefix.len() == 0 {
        Ok(path)
    } else {
        in_merge(normal_path(prefix + "/"@ + path))
    }
}

/// The canonical paths of an input's files and the index by their keys.
pub open spec fn canonical_entries_from(
    index: Seq<(Seq<char>, usize)>,
    paths: Seq<Seq<char>>,
    entries: Seq<PakEntryInventoryView>,
    at: int,
    prefix: Seq<char>,
    input_path: Seq<char>,
) -> Outcome<(Seq<(Seq<char>, usize)>, Seq<Seq<char>>)>
    decreases entries.len() - at,
{
    if at >= entries.len() {
        Ok((index, paths))
    } else {
        match canonical_path(prefix, entries[at].path) {
            Err(error) => Err(error),
            Ok(canonical) => match get(index, folded(canonical)) {
                Some(previous) => invalid_request(
                    "Matching the Pak root paths would create the same internal file path twice in "@
                        + input_path + ": "@ + entries[previous as int].path + (" and "@
                        + entries[at].path),
                ),
                None => canonical_entries_from(
                    put(index, folded(canonical), at as usize),
                    paths.push(canonical),
                    entries,
                    at + 1,
                    prefix,
                    input_path,
                ),
            },
        }
    }
}

/// An input under the common base folder.
pub open spec fn canonical_input(
    input: OpenedPakView,
    parts: Seq<Seq<char>>,
    common: int,
    mount: Seq<char>,
) -> Outcome<OpenedPakView> {
    let entries = input.archive.inventory.entries;
    match canonical_entries_from(
        Seq::empty(),
        Seq::empty(),
        entries,
        0,
        joined(parts.skip(common), "/"@),
        input.descriptor.path,
    ) {
        Err(error) => Err(error),
        Ok((index, paths)) => match grouped(paths) {
            Err(error) => Err(MergeErrorView::Pak(error)),
            Ok(packages) => Ok(
                OpenedPakView {
                    canonical_mount_point: mount,
                    canonical_packages: packages,
                    entry_index: index,
                    ..input
                },
            ),
        },
    }
}

/// Brings one input under the common base folder.
#[verifier::loop_isolation(false)]
fn canonicalize_input<'a>(input: OpenedPak<'a>, parts: &Vec<String>, common: usize, mount: &str) -> (result:
    Result<OpenedPak<'a>>)
    requires
        input.well_formed(),
        common <= parts@.len(),
    ensures
        seen(result) == canonical_input(input@, texts(parts@), common as int, mount@),
        result matches Ok(placed) ==> placed.well_formed(),
{
    let prefix = join_range(parts, common, parts.len(), "/");
    proof {
        assert(texts(parts@).subrange(common as int, parts@.len() as int) =~= texts(parts@).skip(
            common as int,
        ));
    }
    let mut index: OrderedMap<usize> = OrderedMap::new();
    let mut paths: Vec<String> = Vec::new();
    let ghost entries = input@.archive.inventory.entries;
    let mut at: usize = 0;
    assert(texts(paths@) =~= Seq::<Seq<char>>::empty());
    let count: usize = input.archive.inventory.entries.len();
    while at < count
        invariant
            at <= count,
            count == input.archive.inventory.entries@.len() == entries.len(),
            entries == inventory_views(input.archive.inventory.entries@),
            index.well_formed(),
            forall|i: int| 0 <= i < index.items@.len() ==> (#[trigger] index.items@[i]).1 < at,
            canonical_entries_from(
                Seq::empty(),
                Seq::empty(),
                entries,
                0,
                prefix@,
                input.descriptor.path@,
            ) == canonical_entries_from(
                index@,
                texts(paths@),
                entries,
                at as int,
                prefix@,
                input.descriptor.path@,
            ),
        decreases count - at,
    {
        let path = input.archive.inventory.entries[at].path.as_str();
        assert(entries[at as int].path == path@);
        let has_prefix = chars_of(prefix.as_str()).len() > 0;
        let canonical = if !has_prefix {
            path.to_owned()
        } else {
            match normalize_entry_path(cat3(prefix.as_str(), "/", path).as_str()) {
                Ok(canonical) => canonical,
                Err(error) => {
                    return Err(MergeError::Pak(error));
                },
            }
        };
        let key = sort_key(canonical.as_str());
        match index.find(key.as_str()) {
            Some(found) => {
                let previous: usize = index.items[found].1;
                assert(entries[previous as int].path == input.archive.inventory.entries@[previous as int].path@);
                return Err(
                    MergeError::InvalidRequest(
                        cat5(
                            "Matching the Pak root paths would create the same internal file path twice in ",
                            input.descriptor.path.as_str(),
                            ": ",
                            input.archive.inventory.entries[previous].path.as_str(),
                            cat2(" and ", path).as_str(),
                        ),
                    ),
                );
            },
            None => {},
        }
        proof {
            texts_push(paths@, canonical);
        }
        let ghost before = index;
        index.insert(key, at);
        proof {
            index_stays_below(before, index, key@, at);
        }
        paths.push(canonical);
        at += 1;
    }
    let packages = match group_packages(&paths) {
        Ok(packages) => packages,
        Err(error) => {
            return Err(MergeError::Pak(error));
        },
    };
    Ok(
        OpenedPak {
            descriptor: input.descriptor,
            archive: input.archive,
            source_modified: input.source_modified,
            canonical_mount_point: mount.to_owned(),
            canonical_packages: packages,
            entry_index: index,
        },
    )
}

/// An index that took in a place holds nothing else that is new.
proof fn index_stays_below(before: OrderedMap<usize>, after: OrderedMap<usize>, key: Seq<char>, at: usize)
    requires
        forall|i: int| 0 <= i < before.items@.len() ==> (#[trigger] before.items@[i]).1 < at,
        after@ == put(before@, key, at),
        at < usize::MAX,
    ensures
        forall|i: int| 0 <= i < after.items@.len() ==> (#[trigger] after.items@[i]).1 < at + 1,
{
    let slot = crate::ordered::slot(before@, key);
    crate::ordered::slot_parts(before@, key);
    assert(after@.len() == after.items@.len());
    assert(before@.len() == before.items@.len());
    assert forall|i: int| 0 <= i < after.items@.len() implies (#[trigger] after.items@[i]).1 < at
        + 1 by {
        assert(after@[i].1 == after.items@[i].1);
        if slot < before@.len() && before@[slot].0 == key {
            if i != slot {
                assert(after@[i] == before@[i]);
                assert(before@[i].1 == before.items@[i].1);
            }
        } else if i < slot {
            assert(after@[i] == before@[i]);
            assert(before@[i].1 == before.items@[i].1);
        } else if i > slot {
            assert(after@[i] == before@[i - 1]);
            assert(before@[i - 1].1 == before.items@[i - 1].1);
        }
    }
}

/// The inputs under the common base folder, one after the other.
pub open spec fn canonical_from(
    done: Seq<OpenedPakView>,
    rest: Seq<OpenedPakView>,
    parts: Seq<Seq<Seq<char>>>,
    common: int,
    mount: Seq<char>,
) -> Outcome<Seq<OpenedPakView>>
    decreases rest.len(),
{
    if rest.len() == 0 {
        Ok(done)
    } else {
        match canonical_input(rest[0], parts[0], common, mount) {
            Err(error) => Err(error),
            Ok(input) => canonical_from(
                done.push(input),
                rest.skip(1),
                parts.skip(1),
                common,
                mount,
            ),
        }
    }
}

/// Whether every part leads upwards.
pub open spec fn only_upwards(parts: Seq<Seq<char>>) -> bool {
    forall|i: int| 0 <= i < parts.len() ==> #[trigger] parts[i] == ".."@
}

/// The first input that is the base Pak.
pub open spec fn opened_at(opened: Seq<OpenedPakView>, carrier: Seq<char>) -> Option<int>
    decreases opened.len(),
{
    if opened.len() == 0 {
        None
    } else if same_but_case(opened[0].descriptor.path, carrier) {
        Some(0int)
    } else {
        match opened_at(opened.skip(1), carrier) {
            Some(at) => Some(at + 1),
            None => None,
        }
    }
}

pub fn find_opened(opened: &Vec<OpenedPak>, carrier_path: &str) -> (result: Option<usize>)
    ensures
        match (result, opened_at(views(opened@), carrier_path@)) {
            (Some(at), Some(wanted)) => at == wanted && at < opened@.len(),
            (None, None) => true,
            _ => false,
        },
{
    let ghost all = views(opened@);
    let mut at: usize = 0;
    assert(all.skip(0) =~= all);
    while at < opened.len()
        invariant
            at <= opened@.len(),
            all == views(opened@),
            match (opened_at(all, carrier_path@), opened_at(all.skip(at as int), carrier_path@)) {
                (Some(whole), Some(rest)) => whole == rest + at,
                (None, None) => true,
                _ => false,
            },
        decreases opened.len() - at,
    {
        proof {
            assert(all.skip(at as int)[0] == opened@[at as int]@);
            assert(all.skip(at as int).skip(1) =~= all.skip(at as int + 1));
        }
        if same_path(opened[at].descriptor.path.as_str(), carrier_path) {
            return Some(at);
        }
        at += 1;
    }
    None
}

/// All inputs under the base folder that they share.
pub open spec fn canonicalized(opened: Seq<OpenedPakView>, carrier: Seq<char>) -> Outcome<
    Seq<OpenedPakView>,
> {
    if opened.len() == 0 {
        Ok(opened)
    } else {
        match all_mount_parts(mounts_of(opened)) {
            Err(error) => Err(error),
            Ok(parts) => {
                let common = common_len_from(parts[0], parts[0].len() as int, parts.skip(1));
                if common == 0 || only_upwards(parts[0].take(common)) {
                    invalid_request(
                        "The Pak files point to different game folders and cannot be merged together. Pak root paths: "@
                            + joined(mounts_of(opened), ", "@),
                    )
                } else {
                    match opened_at(opened, carrier) {
                        None => invalid_request("The selected base Pak is no longer available."@),
                        Some(at) => match normal_mount(joined(parts[at].take(common), "/"@)) {
                            Err(error) => Err(MergeErrorView::Pak(error)),
                            Ok(mount) => canonical_from(
                                Seq::empty(),
                                opened,
                                parts,
                                common,
                                mount,
                            ),
                        },
                    }
                }
            },
        }
    }
}

fn list_mounts(opened: &Vec<OpenedPak>) -> (result: Vec<String>)
    ensures
        texts(result@) == mounts_of(views(opened@)),
{
    let ghost all = mounts_of(views(opened@));
    let mut result: Vec<String> = Vec::new();
    let mut at: usize = 0;
    while at < opened.len()
        invariant
            at <= opened@.len(),
            all == mounts_of(views(opened@)),
            texts(result@) == all.take(at as int),
        decreases opened.len() - at,
    {
        let mount = opened[at].archive.inventory.mount_point.clone();
        proof {
            texts_push(result@, mount);
            assert(views(opened@)[at as int] == opened@[at as int]@);
            assert(all.take(at as int + 1) =~= all.take(at as int).push(mount@));
        }
        result.push(mount);
        at += 1;
    }
    assert(all.take(at as int) =~= all);
    result
}

fn all_components(mounts: &Vec<String>) -> (result: Result<Vec<Vec<String>>>)
    ensures
        match (result, all_mount_parts(texts(mounts@))) {
            (Ok(parts), Ok(wanted)) => text_lists(parts@) == wanted && parts@.len() == mounts@.len(),
            (Err(error), Err(wanted)) => error@ == wanted,
            _ => false,
        },
{
    let ghost all = texts(mounts@);
    let mut result: Vec<Vec<String>> = Vec::new();
    let mut at: usize = 0;
    proof {
        assert(all.take(0) =~= Seq::<Seq<char>>::empty());
        assert(text_lists(result@) =~= Seq::<Seq<Seq<char>>>::empty());
    }
    while at < mounts.len()
        invariant
            at <= mounts@.len(),
            result@.len() == at,
            all == texts(mounts@),
            all_mount_parts(all.take(at as int)) == Ok::<Seq<Seq<Seq<char>>>, MergeErrorView>(
                text_lists(result@),
            ),
        decreases mounts.len() - at,
    {
        proof {
            assert(all.take(at as int + 1).drop_last() =~= all.take(at as int));
            assert(all.take(at as int + 1).last() == mounts@[at as int]@);
        }
        match safe_mount_components(mounts[at].as_str()) {
            Ok(parts) => {
                proof {
                    assert(text_lists(result@.push(parts)) =~= text_lists(result@).push(
                        texts(parts@),
                    ));
                }
                result.push(parts);
            },
            Err(error) => {
                proof {
                    early_mount_fault(all, at as int + 1);
                }
                return Err(error);
            },
        }
        at += 1;
    }
    assert(all.take(at as int) =~= all);
    Ok(result)
}

fn common_length(parts: &Vec<Vec<String>>) -> (result: usize)
    requires
        parts@.len() > 0,
    ensures
        result == common_len_from(
            texts(parts@[0]@),
            parts@[0]@.len() as int,
            text_lists(parts@).skip(1),
        ),
        forall|i: int| 0 <= i < parts@.len() ==> result <= (#[trigger] parts@[i])@.len(),
{
    let ghost lists = text_lists(parts@);
    let mut common: usize = parts[0].len();
    let mut at: usize = 1;
    while at < parts.len()
        invariant
            1 <= at <= parts@.len(),
            lists == text_lists(parts@),
            common <= parts@[0]@.len(),
            forall|i: int| 0 <= i < at ==> common <= (#[trigger] parts@[i])@.len(),
            common_len_from(texts(parts@[0]@), parts@[0]@.len() as int, lists.skip(1))
                == common_len_from(texts(parts@[0]@), common as int, lists.skip(at as int)),
        decreases parts.len() - at,
    {
        proof {
            assert(lists.skip(at as int)[0] == texts(parts@[at as int]@));
            assert(lists.skip(at as int).skip(1) =~= lists.skip(at as int + 1));
        }
        common = count_shared(&parts[0], &parts[at], common);
        at += 1;
    }
    common
}

fn leads_only_upwards(parts: &Vec<String>, common: usize) -> (result: bool)
    requires
        common <= parts@.len(),
    ensures
        result == only_upwards(texts(parts@).take(common as int)),
{
    let mut at: usize = 0;
    let ghost head = texts(parts@).take(common as int);
    while at < common
        invariant
            at <= common <= parts@.len(),
            head == texts(parts@).take(common as int),
            forall|i: int| 0 <= i < at ==> #[trigger] head[i] == ".."@,
        decreases common - at,
    {
        assert(head[at as int] == parts@[at as int]@);
        if !same_text(parts[at].as_str(), "..") {
            return false;
        }
        at += 1;
    }
    true
}

/// Brings the inputs under a base folder, one after the other.
#[verifier::loop_isolation(false)]
fn canonicalize_all<'a>(
    opened: Vec<OpenedPak<'a>>,
    parts: &Vec<Vec<String>>,
    common: usize,
    mount: &str,
) -> (result: Result<Vec<OpenedPak<'a>>>)
    requires
        all_well_formed(opened@),
        opened@.len() == parts@.len(),
        forall|i: int| 0 <= i < parts@.len() ==> common <= (#[trigger] parts@[i])@.len(),
    ensures
        same_opened(
            result,
            canonical_from(
                Seq::empty(),
                views(opened@),
                text_lists(parts@),
                common as int,
                mount@,
            ),
        ),
{
    let ghost all = views(opened@);
    let ghost lists = text_lists(parts@);
    let count: usize = opened.len();
    let mut rest = opened;
    let mut result: Vec<OpenedPak<'a>> = Vec::new();
    let mut at: usize = 0;
    proof {
        assert(all.skip(0) =~= all);
        assert(lists.skip(0) =~= lists);
        assert(views(result@) =~= Seq::<OpenedPakView>::empty());
    }
    while rest.len() > 0
        invariant
            at + rest@.len() == all.len() == parts@.len(),
            views(rest@) == all.skip(at as int),
            lists == text_lists(parts@),
            all_well_formed(rest@),
            all_well_formed(result@),
            forall|i: int| 0 <= i < parts@.len() ==> common <= (#[trigger] parts@[i])@.len(),
            canonical_from(Seq::empty(), all, lists, common as int, mount@) == canonical_from(
                views(result@),
                all.skip(at as int),
                lists.skip(at as int),
                common as int,
                mount@,
            ),
        decreases rest@.len(),
    {
        let ghost before = rest@;
        let input = rest.remove(0);
        proof {
            assert(views(before)[0] == input@);
            assert(all.skip(at as int)[0] == input@);
            assert(all.skip(at as int).skip(1) =~= all.skip(at as int + 1));
            assert(views(rest@) =~= views(before).skip(1));
            assert(lists.skip(at as int)[0] == texts(parts@[at as int]@));
            assert(lists.skip(at as int).skip(1) =~= lists.skip(at as int + 1));
            assert forall|i: int| 0 <= i < rest@.len() implies (#[trigger] rest@[i]).well_formed() by {
                assert(rest@[i] == before[i + 1]);
            }
            assert(before[0].well_formed());
        }
        let placed = canonicalize_input(input, &parts[at], common, mount)?;
        proof {
            views_push(result@, placed);
        }
        result.push(placed);
        at += 1;
    }
    Ok(result)
}

/// Brings all inputs under the base folder that they share.
pub fn canonicalize_mount_points<'a>(opened: Vec<OpenedPak<'a>>, carrier_path: &str) -> (result: Result<
    Vec<OpenedPak<'a>>,
>)
    requires
        all_well_formed(opened@),
    ensures
        same_opened(result, canonicalized(views(opened@), carrier_path@)),
{
    if opened.len() == 0 {
        return Ok(opened);
    }
    let ghost all = views(opened@);
    let mounts = list_mounts(&opened);
    let parts = all_components(&mounts)?;
    let ghost lists = text_lists(parts@);
    assert(lists[0] == texts(parts@[0]@));
    let common: usize = common_length(&parts);
    if common == 0 || leads_only_upwards(&parts[0], common) {
        return Err(
            MergeError::InvalidRequest(
                cat2(
                    "The Pak files point to different game folders and cannot be merged together. Pak root paths: ",
                    join(&mounts, ", ").as_str(),
                ),
            ),
        );
    }
    let carrier: usize = match find_opened(&opened, carrier_path) {
        Some(at) => at,
        None => {
            return Err(
                MergeError::InvalidRequest(
                    "The selected base Pak is no longer available.".to_owned(),
                ),
            );
        },
    };
    proof {
        assert(lists[carrier as int] == texts(parts@[carrier as int]@));
        assert(texts(parts@[carrier as int]@).subrange(0, common as int) =~= texts(
            parts@[carrier as int]@,
        ).take(common as int));
    }
    let mount = match normalize_mount_point(
        join_range(&parts[carrier], 0, common, "/").as_str(),
    ) {
        Ok(mount) => mount,
        Err(error) => {
            return Err(MergeError::Pak(error));
        },
    };
    canonicalize_all(opened, &parts, common, mount.as_str())
}

/// The record of an input.
pub open spec fn descriptor_of(
    path: Seq<char>,
    file_name: Option<Seq<char>>,
    inventory: PakInventoryView,
) -> InputDescriptorView {
    InputDescriptorView {
        id: "pak-"@ + inventory.archive_sha256,
        path,
        display_name: match file_name {
            Some(name) => name,
            None => "Pak"@,
        },
        sha256: inventory.archive_sha256,
        size: inventory.archive_size,
        pak_version: Some(inventory.footer.version),
        mount_point: Some(inventory.mount_point),
        entry_count: Some(inventory.entries.len() as usize),
    }
}

/// An archive as an input, before it is brought under a common base folder.
pub open spec fn opened_input(path: Seq<char>, file_name: Option<Seq<char>>, input: InputArchiveView) -> OpenedPakView {
    OpenedPakView {
        descriptor: descriptor_of(path, file_name, input.archive.inventory),
        archive: input.archive,
        source_modified: input.source_modified,
        canonical_mount_point: Seq::empty(),
        canonical_packages: PackageGroupingView {
            packages: Seq::empty(),
            loose_entries: Seq::empty(),
        },
        entry_index: Seq::empty(),
    }
}

fn open_input<'a>(path: &str, file_name: &Option<String>, input: InputArchive<'a>) -> (result: OpenedPak<
    'a,
>)
    requires
        input.archive.well_formed(),
    ensures
        result@ == opened_input(path@, text_view(*file_name), input@),
        result.well_formed(),
{
    let inventory = &input.archive.inventory;
    let sha256 = inventory.archive_sha256.clone();
    let display_name = match file_name {
        Some(name) => name.clone(),
        None => "Pak".to_owned(),
    };
    let descriptor = InputDescriptor {
        id: cat2("pak-", sha256.as_str()),
        path: path.to_owned(),
        display_name,
        sha256,
        size: inventory.archive_size,
        pak_version: Some(inventory.footer.version),
        mount_point: Some(inventory.mount_point.clone()),
        entry_count: Some(inventory.entries.len()),
    };
    assert(input@.archive.inventory.entries.len() == inventory.entries@.len());
    let packages = PackageGrouping { packages: Vec::new(), loose_entries: Vec::new() };
    let opened = OpenedPak {
        descriptor,
        archive: input.archive,
        source_modified: input.source_modified,
        canonical_mount_point: String::new(),
        canonical_packages: packages,
        entry_index: OrderedMap::new(),
    };
    assert(opened@.canonical_packages.packages =~= Seq::empty());
    assert(opened@.canonical_packages.loose_entries =~= Seq::empty());
    assert(opened@.canonical_mount_point =~= Seq::empty());
    opened
}

/// The input that holds the same bytes as an archive.
pub open spec fn twin_of(opened: Seq<OpenedPakView>, sha256: Seq<char>) -> Option<Seq<char>>
    decreases opened.len(),
{
    if opened.len() == 0 {
        None
    } else if opened[0].descriptor.sha256 == sha256 {
        Some(opened[0].descriptor.path)
    } else {
        twin_of(opened.skip(1), sha256)
    }
}

/// The error of two inputs with the same bytes.
pub open spec fn twins(first: Seq<char>, second: Seq<char>, sha256: Seq<char>) -> MergeErrorView {
    MergeErrorView::InvalidRequest(
        "These Pak files are identical. Remove one before analyzing: "@ + first + " and "@ + second
            + (" (SHA-256 "@ + sha256 + ")"@),
    )
}

fn find_twin(opened: &Vec<OpenedPak>, sha256: &str) -> (result: Option<String>)
    ensures
        text_view(result) == twin_of(views(opened@), sha256@),
{
    let ghost all = views(opened@);
    let mut at: usize = 0;
    assert(all.skip(0) =~= all);
    while at < opened.len()
        invariant
            at <= opened@.len(),
            all == views(opened@),
            twin_of(all, sha256@) == twin_of(all.skip(at as int), sha256@),
        decreases opened.len() - at,
    {
        proof {
            assert(all.skip(at as int)[0] == opened@[at as int]@);
            assert(all.skip(at as int).skip(1) =~= all.skip(at as int + 1));
        }
        if same_text(opened[at].descriptor.sha256.as_str(), sha256) {
            return Some(opened[at].descriptor.path.clone());
        }
        at += 1;
    }
    None
}

fn twin_error(first: &str, second: &str, sha256: &str) -> (error: MergeError)
    ensures
        error@ == twins(first@, second@, sha256@),
{
    MergeError::InvalidRequest(
        cat5(
            "These Pak files are identical. Remove one before analyzing: ",
            first,
            " and ",
            second,
            cat3(" (SHA-256 ", sha256, ")").as_str(),
        ),
    )
}

/// The inputs of a request whose archives come in the order of its paths.
pub open spec fn opened_in_order_from(
    done: Seq<OpenedPakView>,
    paths: Seq<Seq<char>>,
    names: Seq<PathNameView>,
    archives: Seq<InputArchiveView>,
) -> Outcome<Seq<OpenedPakView>>
    decreases paths.len(),
{
    if paths.len() == 0 {
        Ok(done)
    } else {
        match twin_of(done, archives[0].archive.inventory.archive_sha256) {
            Some(first) => Err(
                twins(first, paths[0], archives[0].archive.inventory.archive_sha256),
            ),
            None => opened_in_order_from(
                done.push(opened_input(paths[0], names[0].file_name, archives[0])),
                paths.skip(1),
                names.skip(1),
                archives.skip(1),
            ),
        }
    }
}

/// The inputs of a request.
pub open spec fn opened_in_order(
    request: AnalysisRequestView,
    names: Seq<PathNameView>,
    archives: Seq<InputArchiveView>,
) -> Outcome<Seq<OpenedPakView>> {
    match opened_in_order_from(Seq::empty(), request.pak_paths, names, archives) {
        Err(error) => Err(error),
        Ok(opened) => canonicalized(opened, request.carrier_path),
    }
}

pub open spec fn archives_well_formed(archives: Seq<InputArchive>) -> bool {
    forall|i: int| 0 <= i < archives.len() ==> (#[trigger] archives[i]).archive.well_formed()
}

/// The outcome of a step that yields inputs.
pub open spec fn same_opened<'a>(result: Result<Vec<OpenedPak<'a>>>, wanted: Outcome<Seq<OpenedPakView>>) -> bool {
    match (result, wanted) {
        (Ok(list), Ok(expected)) => views(list@) == expected && all_well_formed(list@),
        (Err(error), Err(expected)) => error@ == expected,
        _ => false,
    }
}

/// Makes inputs of freshly opened archives.
#[verifier::loop_isolation(false)]
pub fn open_paks<'a>(request: &AnalysisRequest, names: &Vec<PathName>, archives: Vec<InputArchive<'a>>) -> (result:
    Result<Vec<OpenedPak<'a>>>)
    requires
        names@.len() == request.pak_paths@.len(),
        archives@.len() == request.pak_paths@.len(),
        archives_well_formed(archives@),
    ensures
        same_opened(result, opened_in_order(request@, views(names@), views(archives@))),
{
    let ghost paths = texts(request.pak_paths@);
    let ghost all_names = views(names@);
    let ghost all = views(archives@);
    let mut rest = archives;
    let mut opened: Vec<OpenedPak<'a>> = Vec::new();
    let mut at: usize = 0;
    let count: usize = request.pak_paths.len();
    proof {
        assert(paths.skip(0) =~= paths);
        assert(all_names.skip(0) =~= all_names);
        assert(all.skip(0) =~= all);
        assert(views(opened@) =~= Seq::<OpenedPakView>::empty());
    }
    while rest.len() > 0
        invariant
            at + rest@.len() == request.pak_paths@.len() == names@.len() == all.len(),
            paths == texts(request.pak_paths@),
            all_names == views(names@),
            views(rest@) == all.skip(at as int),
            archives_well_formed(rest@),
            all_well_formed(opened@),
            opened_in_order_from(Seq::empty(), paths, all_names, all) == opened_in_order_from(
                views(opened@),
                paths.skip(at as int),
                all_names.skip(at as int),
                all.skip(at as int),
            ),
        decreases rest@.len(),
    {
        let ghost before = rest@;
        let input = rest.remove(0);
        proof {
            assert(views(before)[0] == input@);
            assert(all.skip(at as int)[0] == input@);
            assert(all.skip(at as int).skip(1) =~= all.skip(at as int + 1));
            assert(views(rest@) =~= views(before).skip(1));
            assert(paths.skip(at as int)[0] == request.pak_paths@[at as int]@);
            assert(paths.skip(at as int).skip(1) =~= paths.skip(at as int + 1));
            assert(all_names.skip(at as int)[0] == names@[at as int]@);
            assert(all_names.skip(at as int).skip(1) =~= all_names.skip(at as int + 1));
            assert forall|i: int| 0 <= i < rest@.len() implies (
            #[trigger] rest@[i]).archive.well_formed() by {
                assert(rest@[i] == before[i + 1]);
            }
            assert(before[0].archive.well_formed());
        }
        let path = request.pak_paths[at].as_str();
        match find_twin(&opened, input.archive.inventory.archive_sha256.as_str()) {
            Some(first) => {
                return Err(
                    twin_error(
                        first.as_str(),
                        path,
                        input.archive.inventory.archive_sha256.as_str(),
                    ),
                );
            },
            None => {},
        }
        let pak = open_input(path, &names[at].file_name, input);
        proof {
            views_push(opened@, pak);
        }
        opened.push(pak);
        at += 1;
    }
    canonicalize_mount_points(opened, request.carrier_path.as_str())
}

/// The archive file is the one that was opened, as far as its metadata tells.
pub open spec fn archive_current(
    path: Seq<char>,
    source_path: Seq<char>,
    archive_size: u64,
    source_modified: Option<i128>,
    stamp: Option<FileStamp>,
) -> bool {
    &&& same_but_case(source_path, path)
    &&& stamp matches Some(stamp) && stamp.len == archive_size && (source_modified is Some
        && stamp.modified is Some ==> source_modified == stamp.modified)
}

pub fn verify_cached_archive_path(
    path: &str,
    archive: &PakArchive,
    source_modified: Option<i128>,
    stamp: Option<FileStamp>,
) -> (result: Result<()>)
    ensures
        seen(result) == (if archive_current(
            path@,
            archive@.inventory.source_path,
            archive@.inventory.archive_size,
            source_modified,
            stamp,
        ) {
            Ok(())
        } else {
            Err::<(), MergeErrorView>(MergeErrorView::InputChanged(path@))
        }),
{
    if !same_path(archive.inventory.source_path.as_str(), path) {
        return Err(MergeError::InputChanged(path.to_owned()));
    }
    match stamp {
        None => Err(MergeError::InputChanged(path.to_owned())),
        Some(stamp) => {
            if stamp.len != archive.inventory.archive_size {
                return Err(MergeError::InputChanged(path.to_owned()));
            }
            match (source_modified, stamp.modified) {
                (Some(expected), Some(actual)) => {
                    if actual != expected {
                        return Err(MergeError::InputChanged(path.to_owned()));
                    }
                },
                _ => {},
            }
            Ok(())
        },
    }
}

/// The first archive under a key.
pub open spec fn picked(archives: Seq<InputArchiveView>, key: Seq<char>) -> Option<int>
    decreases archives.len(),
{
    if archives.len() == 0 {
        None
    } else if folded(archives[0].archive.inventory.source_path) == key {
        Some(0int)
    } else {
        match picked(archives.skip(1), key) {
            Some(at) => Some(at + 1),
            None => None,
        }
    }
}

/// Whether two archives stand under the same key.
pub open spec fn any_repeated(archives: Seq<InputArchiveView>) -> bool
    decreases archives.len(),
{
    if archives.len() == 0 {
        false
    } else {
        picked(archives.skip(1), folded(archives[0].archive.inventory.source_path)) is Some
            || any_repeated(archives.skip(1))
    }
}

/// The inputs of a request whose archives are found by their paths.
pub open spec fn opened_by_path_from(
    done: Seq<OpenedPakView>,
    paths: Seq<Seq<char>>,
    names: Seq<PathNameView>,
    archives: Seq<InputArchiveView>,
) -> Outcome<Seq<OpenedPakView>>
    decreases paths.len(),
{
    if paths.len() == 0 {
        if archives.len() > 0 {
            invalid_request("the inspection cache contains a Pak that was not selected"@)
        } else {
            Ok(done)
        }
    } else {
        match picked(archives, folded(paths[0])) {
            None => invalid_request(
                "the inspected Pak is no longer available in the analysis cache: "@ + paths[0],
            ),
            Some(at) => {
                let input = archives[at];
                let inventory = input.archive.inventory;
                if !same_but_case(inventory.source_path, paths[0]) {
                    invalid_request(
                        "the inspected Pak path does not match the selected file: "@ + paths[0],
                    )
                } else if !archive_current(
                    paths[0],
                    inventory.source_path,
                    inventory.archive_size,
                    input.source_modified,
                    input.stamp,
                ) {
                    Err(MergeErrorView::InputChanged(paths[0]))
                } else {
                    match twin_of(done, inventory.archive_sha256) {
                        Some(first) => Err(twins(first, paths[0], inventory.archive_sha256)),
                        None => opened_by_path_from(
                            done.push(opened_input(paths[0], names[0].file_name, input)),
                            paths.skip(1),
                            names.skip(1),
                            archives.remove(at),
                        ),
                    }
                }
            },
        }
    }
}

/// The inputs of a request, from archives that are already open.
pub open spec fn opened_by_path(
    request: AnalysisRequestView,
    names: Seq<PathNameView>,
    archives: Seq<InputArchiveView>,
) -> Outcome<Seq<OpenedPakView>> {
    if any_repeated(archives) {
        invalid_request("the inspection cache contains the same Pak path more than once"@)
    } else {
        match opened_by_path_from(Seq::empty(), request.pak_paths, names, archives) {
            Err(error) => Err(error),
            Ok(opened) => canonicalized(opened, request.carrier_path),
        }
    }
}

fn pick(archives: &Vec<InputArchive>, key: &str, from: usize) -> (result: Option<usize>)
    requires
        from <= archives@.len(),
    ensures
        match (result, picked(views(archives@).skip(from as int), key@)) {
            (Some(at), Some(wanted)) => at == wanted + from && at < archives@.len(),
            (None, None) => true,
            _ => false,
        },
{
    let ghost all = views(archives@);
    let mut at: usize = from;
    while at < archives.len()
        invariant
            from <= at <= archives@.len(),
            all == views(archives@),
            match (picked(all.skip(from as int), key@), picked(all.skip(at as int), key@)) {
                (Some(whole), Some(rest)) => whole + from == rest + at,
                (None, None) => true,
                _ => false,
            },
        decreases archives.len() - at,
    {
        proof {
            assert(all.skip(at as int)[0] == archives@[at as int]@);
            assert(all.skip(at as int).skip(1) =~= all.skip(at as int + 1));
        }
        if same_text(
            sort_key(archives[at].archive.inventory.source_path.as_str()).as_str(),
            key,
        ) {
            return Some(at);
        }
        at += 1;
    }
    None
}

fn has_repeated(archives: &Vec<InputArchive>) -> (result: bool)
    ensures
        result == any_repeated(views(archives@)),
{
    let ghost all = views(archives@);
    let mut at: usize = 0;
    assert(all.skip(0) =~= all);
    while at < archives.len()
        invariant
            at <= archives@.len(),
            all == views(archives@),
            any_repeated(all) == any_repeated(all.skip(at as int)),
        decreases archives.len() - at,
    {
        proof {
            assert(all.skip(at as int)[0] == archives@[at as int]@);
            assert(all.skip(at as int).skip(1) =~= all.skip(at as int + 1));
        }
        let key = sort_key(archives[at].archive.inventory.source_path.as_str());
        if pick(archives, key.as_str(), at + 1).is_some() {
            return true;
        }
        at += 1;
    }
    false
}

/// Makes inputs of archives that are already open, which are found by their
/// paths.
#[verifier::loop_isolation(false)]
pub fn opened_from_archives<'a>(
    request: &AnalysisRequest,
    names: &Vec<PathName>,
    archives: Vec<InputArchive<'a>>,
) -> (result: Result<Vec<OpenedPak<'a>>>)
    requires
        names@.len() == request.pak_paths@.len(),
        archives_well_formed(archives@),
    ensures
        same_opened(result, opened_by_path(request@, views(names@), views(archives@))),
{
    if has_repeated(&archives) {
        return Err(
            MergeError::InvalidRequest(
                "the inspection cache contains the same Pak path more than once".to_owned(),
            ),
        );
    }
    let ghost paths = texts(request.pak_paths@);
    let ghost all_names = views(names@);
    let ghost all = views(archives@);
    let mut rest = archives;
    let mut opened: Vec<OpenedPak<'a>> = Vec::new();
    let mut at: usize = 0;
    proof {
        assert(paths.skip(0) =~= paths);
        assert(all_names.skip(0) =~= all_names);
        assert(views(opened@) =~= Seq::<OpenedPakView>::empty());
    }
    while at < request.pak_paths.len()
        invariant
            at <= request.pak_paths@.len() == names@.len(),
            paths == texts(request.pak_paths@),
            all_names == views(names@),
            archives_well_formed(rest@),
            all_well_formed(opened@),
            opened_by_path_from(Seq::empty(), paths, all_names, all) == opened_by_path_from(
                views(opened@),
                paths.skip(at as int),
                all_names.skip(at as int),
                views(rest@),
            ),
        decreases request.pak_paths.len() - at,
    {
        proof {
            assert(paths.skip(at as int)[0] == request.pak_paths@[at as int]@);
            assert(paths.skip(at as int).skip(1) =~= paths.skip(at as int + 1));
            assert(all_names.skip(at as int)[0] == names@[at as int]@);
            assert(all_names.skip(at as int).skip(1) =~= all_names.skip(at as int + 1));
            assert(views(rest@).skip(0) =~= views(rest@));
        }
        let path = request.pak_paths[at].as_str();
        let found: usize = match pick(&rest, sort_key(path).as_str(), 0) {
            Some(found) => found,
            None => {
                return Err(
                    MergeError::InvalidRequest(
                        cat2(
                            "the inspected Pak is no longer available in the analysis cache: ",
                            path,
                        ),
                    ),
                );
            },
        };
        let ghost before = rest@;
        let input = rest.remove(found);
        proof {
            assert(views(before)[found as int] == input@);
            assert(views(rest@) =~= views(before).remove(found as int));
            assert forall|i: int| 0 <= i < rest@.len() implies (
            #[trigger] rest@[i]).archive.well_formed() by {
                if i < found {
                    assert(rest@[i] == before[i]);
                } else {
                    assert(rest@[i] == before[i + 1]);
                }
            }
            assert(before[found as int].archive.well_formed());
        }
        if !same_path(input.archive.inventory.source_path.as_str(), path) {
            return Err(
                MergeError::InvalidRequest(
                    cat2("the inspected Pak path does not match the selected file: ", path),
                ),
            );
        }
        verify_cached_archive_path(path, &input.archive, input.source_modified, input.stamp)?;
        match find_twin(&opened, input.archive.inventory.archive_sha256.as_str()) {
            Some(first) => {
                return Err(
                    twin_error(
                        first.as_str(),
                        path,
                        input.archive.inventory.archive_sha256.as_str(),
                    ),
                );
            },
            None => {},
        }
        let pak = open_input(path, &names[at].file_name, input);
        proof {
            views_push(opened@, pak);
        }
        opened.push(pak);
        at += 1;
    }
    if rest.len() > 0 {
        return Err(
            MergeError::InvalidRequest(
                "the inspection cache contains a Pak that was not selected".to_owned(),
            ),
        );
    }
    canonicalize_mount_points(opened, request.carrier_path.as_str())
}

/// The first input whose file changed after it was opened.
pub open spec fn changed_input(opened: Seq<OpenedPakView>, stamps: Seq<Option<FileStamp>>) -> Option<
    Seq<char>,
>
    decreases opened.len(),
{
    if opened.len() == 0 {
        None
    } else {
        let input = opened[0];
        if archive_current(
            input.descriptor.path,
            input.archive.inventory.source_path,
            input.archive.inventory.archive_size,
            input.source_modified,
            stamps[0],
        ) {
            changed_input(opened.skip(1), stamps.skip(1))
        } else {
            Some(input.descriptor.path)
        }
    }
}

/// Checks that no input's file changed after it was opened.
pub fn verify_session_input_stamps(opened: &Vec<OpenedPak>, stamps: &Vec<Option<FileStamp>>) -> (result:
    Result<()>)
    requires
        stamps@.len() == opened@.len(),
    ensures
        seen(result) == match changed_input(views(opened@), stamps@) {
            Some(path) => Err::<(), MergeErrorView>(MergeErrorView::InputChanged(path)),
            None => Ok(()),
        },
{
    let ghost all = views(opened@);
    let mut at: usize = 0;
    assert(all.skip(0) =~= all);
    assert(stamps@.skip(0) =~= stamps@);
    while at < opened.len()
        invariant
            at <= opened@.len() == stamps@.len(),
            all == views(opened@),
            changed_input(all, stamps@) == changed_input(
                all.skip(at as int),
                stamps@.skip(at as int),
            ),
        decreases opened.len() - at,
    {
        proof {
            assert(all.skip(at as int)[0] == opened@[at as int]@);
            assert(all.skip(at as int).skip(1) =~= all.skip(at as int + 1));
            assert(stamps@.skip(at as int)[0] == stamps@[at as int]);
            assert(stamps@.skip(at as int).skip(1) =~= stamps@.skip(at as int + 1));
        }
        let input = &opened[at];
        verify_cached_archive_path(
            input.descriptor.path.as_str(),
            &input.archive,
            input.source_modified,
            stamps[at],
        )?;
        at += 1;
    }
    Ok(())
}

/// The first input whose archive is not the one that was analyzed.
pub open spec fn mistaken_input(opened: Seq<OpenedPakView>, inputs: Seq<InputDescriptorView>) -> Option<
    Seq<char>,
>
    decreases opened.len(),
{
    if opened.len() == 0 {
        None
    } else {
        match described(inputs, opened[0].descriptor.id) {
            Some(sha256) if sha256 == opened[0].archive.inventory.archive_sha256 => {
                mistaken_input(opened.skip(1), inputs)
            },
            _ => Some(opened[0].descriptor.path),
        }
    }
}

/// The digest that is recorded for an input.
pub open spec fn described(inputs: Seq<InputDescriptorView>, id: Seq<char>) -> Option<Seq<char>>
    decreases inputs.len(),
{
    if inputs.len() == 0 {
        None
    } else if inputs[0].id == id {
        Some(inputs[0].sha256)
    } else {
        described(inputs.skip(1), id)
    }
}

fn find_described(inputs: &Vec<InputDescriptor>, id: &str) -> (result: Option<String>)
    ensures
        text_view(result) == described(views(inputs@), id@),
{
    let ghost all = views(inputs@);
    let mut at: usize = 0;
    assert(all.skip(0) =~= all);
    while at < inputs.len()
        invariant
            at <= inputs@.len(),
            all == views(inputs@),
            described(all, id@) == described(all.skip(at as int), id@),
        decreases inputs.len() - at,
    {
        proof {
            assert(all.skip(at as int)[0] == inputs@[at as int]@);
            assert(all.skip(at as int).skip(1) =~= all.skip(at as int + 1));
        }
        if same_text(inputs[at].id.as_str(), id) {
            return Some(inputs[at].sha256.clone());
        }
        at += 1;
    }
    None
}

/// Checks that the inputs are those that were analyzed.
pub fn verify_input_identities(opened: &Vec<OpenedPak>, descriptors: &Vec<InputDescriptor>) -> (result:
    Result<()>)
    ensures
        seen(result) == match mistaken_input(views(opened@), views(descriptors@)) {
            Some(path) => Err::<(), MergeErrorView>(MergeErrorView::InputChanged(path)),
            None => Ok(()),
        },
{
    let ghost all = views(opened@);
    let mut at: usize = 0;
    assert(all.skip(0) =~= all);
    while at < opened.len()
        invariant
            at <= opened@.len(),
            all == views(opened@),
            mistaken_input(all, views(descriptors@)) == mistaken_input(
                all.skip(at as int),
                views(descriptors@),
            ),
        decreases opened.len() - at,
    {
        proof {
            assert(all.skip(at as int)[0] == opened@[at as int]@);
            assert(all.skip(at as int).skip(1) =~= all.skip(at as int + 1));
        }
        let input = &opened[at];
        match find_described(descriptors, input.descriptor.id.as_str()) {
            Some(sha256) => {
                if !same_text(sha256.as_str(), input.archive.inventory.archive_sha256.as_str()) {
                    return Err(MergeError::InputChanged(input.descriptor.path.clone()));
                }
            },
            None => {
                return Err(MergeError::InputChanged(input.descriptor.path.clone()));
            },
        }
        at += 1;
    }
    Ok(())
}

proof fn joined_parts(parts: Seq<Seq<char>>, at: int, separator: Seq<char>)
    requires
        0 < at < parts.len(),
    ensures
        joined(parts, separator) == joined(parts.take(at), separator) + separator + joined(
            parts.skip(at),
            separator,
        ),
    decreases parts.len() - at,
{
    if at + 1 == parts.len() {
        assert(parts.drop_last() =~= parts.take(at));
        assert(parts.skip(at) =~= seq![parts.last()]);
    } else {
        let rest = parts.drop_last();
        joined_parts(rest, at, separator);
        assert(rest.take(at) =~= parts.take(at));
        assert(parts.skip(at).drop_last() =~= rest.skip(at));
        assert(parts.skip(at).last() == parts.last());
        assert(joined(parts, separator) =~= joined(parts.take(at), separator) + separator + joined(
            parts.skip(at),
            separator,
        ));
    }
}

/// A file stands at the same place before and after it is brought under the
/// common base folder: the folders that the base gave up lead its path.
pub proof fn rebasing_keeps_the_place(parts: Seq<Seq<char>>, common: int, path: Seq<char>)
    requires
        0 < common <= parts.len(),
        common < parts.len() ==> joined(parts.skip(common), "/"@).len() > 0,
        canonical_path(joined(parts.skip(common), "/"@), path) is Ok,
    ensures
        joined(parts.take(common), "/"@) + "/"@ + canonical_path(
            joined(parts.skip(common), "/"@),
            path,
        )->Ok_0 == joined(parts, "/"@) + "/"@ + path,
{
    let prefix = joined(parts.skip(common), "/"@);
    if common == parts.len() {
        assert(parts.skip(common) =~= Seq::<Seq<char>>::empty());
        assert(parts.take(common) =~= parts);
    } else {
        joined_parts(parts, common, "/"@);
        assert(joined(parts.take(common), "/"@) + "/"@ + (prefix + "/"@ + path) =~= joined(
            parts.take(common),
            "/"@,
        ) + "/"@ + prefix + "/"@ + path);
    }
}

/// The index that is being filled finds every file entered so far.
spec fn index_finds(index: Seq<(Seq<char>, usize)>, paths: Seq<Seq<char>>) -> bool {
    &&& crate::ordered::ascending(index)
    &&& forall|i: int|
        0 <= i < paths.len() ==> get(index, folded(#[trigger] paths[i])) == Some(i as usize)
}

proof fn index_finds_all(
    index: Seq<(Seq<char>, usize)>,
    paths: Seq<Seq<char>>,
    entries: Seq<PakEntryInventoryView>,
    at: int,
    prefix: Seq<char>,
    input_path: Seq<char>,
)
    requires
        0 <= at <= entries.len(),
        paths.len() == at,
        index_finds(index, paths),
        canonical_entries_from(index, paths, entries, at, prefix, input_path) is Ok,
    ensures
        ({
            let (all_index, all_paths) = canonical_entries_from(
                index,
                paths,
                entries,
                at,
                prefix,
                input_path,
            )->Ok_0;
            &&& all_paths.len() == entries.len()
            &&& index_finds(all_index, all_paths)
            &&& all_paths.take(at) == paths
            &&& forall|i: int|
                at <= i < entries.len() ==> canonical_path(prefix, (#[trigger] entries[i]).path) == Ok::<
                    Seq<char>,
                    MergeErrorView,
                >(all_paths[i])
        }),
    decreases entries.len() - at,
{
    if at < entries.len() {
        let canonical = canonical_path(prefix, entries[at].path)->Ok_0;
        let key = folded(canonical);
        let next = put(index, key, at as usize);
        let longer = paths.push(canonical);
        crate::ordered::put_keeps_order(index, key, at as usize);
        assert forall|i: int| 0 <= i < longer.len() implies get(next, folded(#[trigger] longer[i])) == Some(
            i as usize,
        ) by {
            if i < at {
                assert(longer[i] == paths[i]);
                crate::ordered::put_then_get(index, key, at as usize, folded(paths[i]));
            } else {
                crate::ordered::put_then_get(index, key, at as usize, key);
            }
        }
        index_finds_all(next, longer, entries, at + 1, prefix, input_path);
        let (all_index, all_paths) = canonical_entries_from(
            index,
            paths,
            entries,
            at,
            prefix,
            input_path,
        )->Ok_0;
        assert(all_paths.take(at + 1) == longer);
        assert(all_paths[at] == longer[at]) by {
            assert(all_paths.take(at + 1)[at] == all_paths[at]);
        }
        assert(all_paths.take(at) =~= paths) by {
            assert forall|i: int| 0 <= i < at implies all_paths[i] == paths[i] by {
                assert(all_paths.take(at + 1)[i] == longer[i]);
            }
        }
    } else {
        assert(paths.take(at) =~= paths);
    }
}

/// Every file of an input is found again under its canonical path.
pub proof fn canonical_paths_lead_back_to_their_files(
    entries: Seq<PakEntryInventoryView>,
    prefix: Seq<char>,
    input_path: Seq<char>,
    at: int,
)
    requires
        0 <= at < entries.len(),
        canonical_entries_from(Seq::empty(), Seq::empty(), entries, 0, prefix, input_path) is Ok,
    ensures
        ({
            let index = canonical_entries_from(
                Seq::empty(),
                Seq::empty(),
                entries,
                0,
                prefix,
                input_path,
            )->Ok_0.0;
            let canonical = canonical_path(prefix, entries[at].path);
            canonical is Ok && get(index, folded(canonical->Ok_0)) == Some(at as usize)
        }),
{
    let (index, paths) = canonical_entries_from(
        Seq::empty(),
        Seq::empty(),
        entries,
        0,
        prefix,
        input_path,
    )->Ok_0;
    index_finds_all(Seq::empty(), Seq::empty(), entries, 0, prefix, input_path);
    assert(canonical_path(prefix, entries[at].path) == Ok::<Seq<char>, MergeErrorView>(paths[at]));
    assert(get(index, folded(paths[at])) == Some(at as usize));
}

/// A part of a path that stands for a file or a folder below the one before it.
pub open spec fn plain_part(part: Seq<char>) -> bool {
    part.len() > 0 && part != seq!['.'] && part != seq!['.', '.']
}

proof fn faultless_parts_are_plain(path: Seq<char>, at: int)
    requires
        component_fault(path) is None,
        0 <= at < parts_of(path).len(),
    ensures
        plain_part(parts_of(path)[at]),
    decreases path.len(),
{
    let end = head_len(path);
    head_len_bounds(path);
    if end < path.len() {
        let rest = parts_of(path.skip(end + 1));
        if at > 0 {
            assert(parts_of(path)[at] == rest[at - 1]);
            faultless_parts_are_plain(path.skip(end + 1), at - 1);
        }
    } else {
        assert(path.take(end) =~= path);
    }
}

/// A path that a Pak may hold never leads out of its folder: it is relative, and
/// none of its parts is empty, `.` or `..`.
pub proof fn accepted_paths_stay_in_their_folder(path: Seq<char>, at: int)
    requires
        normal_path(path) is Ok,
        0 <= at < parts_of(path).len(),
    ensures
        path.len() > 0 && path[0] != '/' && path[0] != '\\',
        !path.contains(':') && !path.contains('\\'),
        plain_part(parts_of(path)[at]),
{
    faultless_parts_are_plain(path, at);
}

} // verus!
