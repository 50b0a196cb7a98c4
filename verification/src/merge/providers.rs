//! Which inputs provide which packages and files.
use vstd::prelude::*;
use vstd::utf8::encode_utf8;

use super::error::{in_merge, seen, MergeError, MergeErrorView, Outcome, Result};
use super::ids::{
    bytes_of, folded, framed, sha256_hex, sha256_text, sort_key, update_framed_text,
};
use super::opened::{all_well_formed, trim_end_slashes, trimmed, OpenedPak, OpenedPakView};
use super::types::{AssetActionKind, AssetPlan, AssetPlanView};
use crate::lists::{views, views_push, Duplicate};
use crate::ordered::{get, put, OrderedMap};
use crate::pak::access::{logical_digest, mapped_bytes, PakEntryData};
use crate::pak::archive::{PakEntryInventory, PakEntryInventoryView};
use crate::pak::paths::{extension_of, PackageComponent, PackageGroup, PackageGroupView};
use crate::sorting::{distinct, sort_distinct};
use crate::text::{append_texts, cat3, chars_of, same_text, text_of, texts, texts_push};

verus! {

/// A package in one of the inputs.
#[derive(Debug)]
pub struct GroupProvider {
    pub input_index: usize,
    pub group: PackageGroup,
}

#[verifier::ext_equal]
pub struct GroupProviderView {
    pub input_index: usize,
    pub group: PackageGroupView,
}

impl View for GroupProvider {
    type V = GroupProviderView;

    open spec fn view(&self) -> GroupProviderView {
        GroupProviderView { input_index: self.input_index, group: self.group@ }
    }
}

impl Duplicate for GroupProvider {
    fn copy(&self) -> (result: Self) {
        GroupProvider { input_index: self.input_index, group: self.group.copy() }
    }
}

/// A file in one of the inputs that belongs to no package.
#[derive(Debug)]
pub struct LooseProvider {
    pub input_index: usize,
    pub path: String,
}

#[verifier::ext_equal]
pub struct LooseProviderView {
    pub input_index: usize,
    pub path: Seq<char>,
}

impl View for LooseProvider {
    type V = LooseProviderView;

    open spec fn view(&self) -> LooseProviderView {
        LooseProviderView { input_index: self.input_index, path: self.path@ }
    }
}

/// The inputs that provide one package, in the order of the inputs.
#[derive(Debug)]
pub struct GroupProviders {
    pub list: Vec<GroupProvider>,
}

impl View for GroupProviders {
    type V = Seq<GroupProviderView>;

    open spec fn view(&self) -> Seq<GroupProviderView> {
        views(self.list@)
    }
}

/// The inputs that provide one file, in the order of the inputs.
#[derive(Debug)]
pub struct LooseProviders {
    pub list: Vec<LooseProvider>,
}

impl View for LooseProviders {
    type V = Seq<LooseProviderView>;

    open spec fn view(&self) -> Seq<LooseProviderView> {
        views(self.list@)
    }
}

/// What is compared as one: a package or a file.
#[derive(Debug)]
pub enum AnalysisUnit {
    Package(Vec<GroupProvider>),
    Loose(Vec<LooseProvider>),
}

#[verifier::ext_equal]
pub enum AnalysisUnitView {
    Package(Seq<GroupProviderView>),
    Loose(Seq<LooseProviderView>),
}

impl View for AnalysisUnit {
    type V = AnalysisUnitView;

    open spec fn view(&self) -> AnalysisUnitView {
        match *self {
            AnalysisUnit::Package(list) => AnalysisUnitView::Package(views(list@)),
            AnalysisUnit::Loose(list) => AnalysisUnitView::Loose(views(list@)),
        }
    }
}

/// The name that is shown for a unit.
pub open spec fn unit_label(unit: AnalysisUnitView) -> Option<Seq<char>> {
    match unit {
        AnalysisUnitView::Package(list) => if list.len() > 0 {
            Some(list[0].group.base_path)
        } else {
            None
        },
        AnalysisUnitView::Loose(list) => if list.len() > 0 {
            Some(list[0].path)
        } else {
            None
        },
    }
}

impl AnalysisUnit {
    /// The name that is shown for the unit.
    pub fn label(&self) -> (result: Option<String>)
        ensures
            crate::text::text_view(result) == unit_label(self@),
    {
        match self {
            AnalysisUnit::Package(list) => {
                if list.len() > 0 {
                    assert(views(list@)[0] == list@[0]@);
                    Some(list[0].group.base_path.clone())
                } else {
                    None
                }
            },
            AnalysisUnit::Loose(list) => {
                if list.len() > 0 {
                    assert(views(list@)[0] == list@[0]@);
                    Some(list[0].path.clone())
                } else {
                    None
                }
            },
        }
    }
}

/// A table of lists in which `item` joined the list under `key`.
pub open spec fn joined_under<W>(table: Seq<(Seq<char>, Seq<W>)>, key: Seq<char>, item: W) -> Seq<
    (Seq<char>, Seq<W>),
> {
    put(
        table,
        key,
        match get(table, key) {
            Some(list) => list.push(item),
            None => seq![item],
        },
    )
}

pub open spec fn packages_in(
    table: Seq<(Seq<char>, Seq<GroupProviderView>)>,
    input_index: usize,
    groups: Seq<PackageGroupView>,
) -> Seq<(Seq<char>, Seq<GroupProviderView>)>
    decreases groups.len(),
{
    if groups.len() == 0 {
        table
    } else {
        packages_in(
            joined_under(
                table,
                folded(groups[0].base_path),
                GroupProviderView { input_index, group: groups[0] },
            ),
            input_index,
            groups.skip(1),
        )
    }
}

/// For the key of each package the inputs that provide it.
pub open spec fn packages_from(
    table: Seq<(Seq<char>, Seq<GroupProviderView>)>,
    opened: Seq<OpenedPakView>,
    at: int,
) -> Seq<(Seq<char>, Seq<GroupProviderView>)>
    decreases opened.len() - at,
{
    if at >= opened.len() {
        table
    } else {
        packages_from(
            packages_in(table, at as usize, opened[at].canonical_packages.packages),
            opened,
            at + 1,
        )
    }
}

pub open spec fn loose_in(
    table: Seq<(Seq<char>, Seq<LooseProviderView>)>,
    input_index: usize,
    paths: Seq<Seq<char>>,
) -> Seq<(Seq<char>, Seq<LooseProviderView>)>
    decreases paths.len(),
{
    if paths.len() == 0 {
        table
    } else {
        loose_in(
            joined_under(
                table,
                folded(paths[0]),
                LooseProviderView { input_index, path: paths[0] },
            ),
            input_index,
            paths.skip(1),
        )
    }
}

/// For the key of each loose file the inputs that provide it.
pub open spec fn loose_from(
    table: Seq<(Seq<char>, Seq<LooseProviderView>)>,
    opened: Seq<OpenedPakView>,
    at: int,
) -> Seq<(Seq<char>, Seq<LooseProviderView>)>
    decreases opened.len() - at,
{
    if at >= opened.len() {
        table
    } else {
        loose_from(
            loose_in(table, at as usize, opened[at].canonical_packages.loose_entries),
            opened,
            at + 1,
        )
    }
}

fn join_package(table: &mut OrderedMap<GroupProviders>, key: String, provider: GroupProvider)
    requires
        old(table).well_formed(),
    ensures
        final(table).well_formed(),
        final(table)@ == joined_under(old(table)@, key@, provider@),
{
    let ghost before = table@;
    let mut list: Vec<GroupProvider> = Vec::new();
    match table.find(key.as_str()) {
        Some(at) => {
            list = crate::lists::copy_list(&table.items[at].1.list);
        },
        None => {},
    }
    proof {
        views_push(list@, provider);
        match get(before, key@) {
            Some(known) => {
                assert(views(list@) == known);
            },
            None => {
                assert(views(list@).push(provider@) =~= seq![provider@]);
            },
        }
    }
    list.push(provider);
    table.insert(key, GroupProviders { list });
}

impl Duplicate for LooseProvider {
    fn copy(&self) -> (result: Self) {
        LooseProvider { input_index: self.input_index, path: self.path.clone() }
    }
}

fn join_loose(table: &mut OrderedMap<LooseProviders>, key: String, provider: LooseProvider)
    requires
        old(table).well_formed(),
    ensures
        final(table).well_formed(),
        final(table)@ == joined_under(old(table)@, key@, provider@),
{
    let ghost before = table@;
    let mut list: Vec<LooseProvider> = Vec::new();
    match table.find(key.as_str()) {
        Some(at) => {
            list = crate::lists::copy_list(&table.items[at].1.list);
        },
        None => {},
    }
    proof {
        views_push(list@, provider);
        match get(before, key@) {
            Some(known) => {
                assert(views(list@) == known);
            },
            None => {
                assert(views(list@).push(provider@) =~= seq![provider@]);
            },
        }
    }
    list.push(provider);
    table.insert(key, LooseProviders { list });
}

/// Gathers which inputs provide which packages and loose files.
pub fn collect_providers(opened: &Vec<OpenedPak>) -> (result: (
    OrderedMap<GroupProviders>,
    OrderedMap<LooseProviders>,
))
    ensures
        result.0.well_formed(),
        result.1.well_formed(),
        result.0@ == packages_from(Seq::empty(), views(opened@), 0),
        result.1@ == loose_from(Seq::empty(), views(opened@), 0),
{
    let mut packages: OrderedMap<GroupProviders> = OrderedMap::new();
    let mut loose: OrderedMap<LooseProviders> = OrderedMap::new();
    let ghost all = views(opened@);
    let mut at: usize = 0;
    while at < opened.len()
        invariant
            at <= opened@.len(),
            all == views(opened@),
            packages.well_formed(),
            loose.well_formed(),
            packages_from(Seq::empty(), all, 0) == packages_from(packages@, all, at as int),
            loose_from(Seq::empty(), all, 0) == loose_from(loose@, all, at as int),
        decreases opened.len() - at,
    {
        let input = &opened[at];
        assert(all[at as int] == input@);
        let ghost groups = input@.canonical_packages.packages;
        let ghost before_packages = packages@;
        let mut group: usize = 0;
        assert(groups.skip(0) =~= groups);
        while group < input.canonical_packages.packages.len()
            invariant
                group <= input.canonical_packages.packages@.len(),
                groups == crate::pak::paths::group_views(input.canonical_packages.packages@),
                packages.well_formed(),
                packages_in(before_packages, at, groups) == packages_in(
                    packages@,
                    at,
                    groups.skip(group as int),
                ),
            decreases input.canonical_packages.packages.len() - group,
        {
            let found = &input.canonical_packages.packages[group];
            proof {
                assert(groups.skip(group as int)[0] == found@);
                assert(groups.skip(group as int).skip(1) =~= groups.skip(group as int + 1));
            }
            join_package(
                &mut packages,
                sort_key(found.base_path.as_str()),
                GroupProvider { input_index: at, group: found.copy() },
            );
            group += 1;
        }
        let ghost paths = input@.canonical_packages.loose_entries;
        let ghost before_loose = loose@;
        let mut path: usize = 0;
        assert(paths.skip(0) =~= paths);
        while path < input.canonical_packages.loose_entries.len()
            invariant
                path <= input.canonical_packages.loose_entries@.len(),
                paths == texts(input.canonical_packages.loose_entries@),
                loose.well_formed(),
                loose_in(before_loose, at, paths) == loose_in(loose@, at, paths.skip(path as int)),
            decreases input.canonical_packages.loose_entries.len() - path,
        {
            let found = &input.canonical_packages.loose_entries[path];
            proof {
                assert(paths.skip(path as int)[0] == found@);
                assert(paths.skip(path as int).skip(1) =~= paths.skip(path as int + 1));
            }
            join_loose(
                &mut loose,
                sort_key(found.as_str()),
                LooseProvider { input_index: at, path: found.clone() },
            );
            path += 1;
        }
        at += 1;
    }
    (packages, loose)
}

/// A text without the separators at its start.
pub open spec fn led(text: Seq<char>) -> Seq<char>
    decreases text.len(),
{
    if text.len() > 0 && text[0] == '/' {
        led(text.skip(1))
    } else {
        text
    }
}

fn trim_start_slashes(text: &str) -> (result: String)
    ensures
        result@ == led(text@),
{
    let chars = chars_of(text);
    let mut at: usize = 0;
    assert(text@.skip(0) =~= text@);
    while at < chars.len() && chars[at] == '/'
        invariant
            at <= chars@.len(),
            chars@ == text@,
            led(text@) == led(text@.skip(at as int)),
        decreases chars.len() - at,
    {
        assert(text@.skip(at as int).skip(1) =~= text@.skip(at as int + 1));
        at += 1;
    }
    let result = text_of(&chars, at, chars.len());
    assert(chars@.subrange(at as int, chars@.len() as int) =~= text@.skip(at as int));
    result
}

/// The full paths of a list of files below a base folder.
pub open spec fn placed_paths(mount: Seq<char>, paths: Seq<Seq<char>>) -> Seq<Seq<char>> {
    paths.map_values(|path: Seq<char>| mount + "/"@ + led(path))
}

pub open spec fn base_paths(groups: Seq<PackageGroupView>) -> Seq<Seq<char>> {
    groups.map_values(|group: PackageGroupView| group.base_path)
}

/// What one input adds to the inventory of a job.
pub open spec fn inventory_part(input: OpenedPakView) -> Seq<Seq<char>> {
    let mount = trimmed(input.canonical_mount_point);
    seq![mount] + placed_paths(mount, base_paths(input.canonical_packages.packages)) + placed_paths(
        mount,
        input.canonical_packages.loose_entries,
    )
}

/// The full paths of everything that the inputs hold, with repetitions.
pub open spec fn inventory_parts(opened: Seq<OpenedPakView>) -> Seq<Seq<char>>
    decreases opened.len(),
{
    if opened.len() == 0 {
        Seq::empty()
    } else {
        inventory_parts(opened.drop_last()) + inventory_part(opened.last())
    }
}

fn append_placed(list: &mut Vec<String>, mount: &str, paths: &Vec<String>)
    ensures
        texts(final(list)@) == texts(old(list)@) + placed_paths(mount@, texts(paths@)),
{
    let ghost before = texts(list@);
    let ghost all = placed_paths(mount@, texts(paths@));
    let mut at: usize = 0;
    assert(before + all.take(0) =~= before);
    while at < paths.len()
        invariant
            at <= paths@.len(),
            all == placed_paths(mount@, texts(paths@)),
            texts(list@) == before + all.take(at as int),
        decreases paths.len() - at,
    {
        let placed = cat3(mount, "/", trim_start_slashes(paths[at].as_str()).as_str());
        proof {
            texts_push(list@, placed);
            assert(texts(paths@)[at as int] == paths@[at as int]@);
            assert(all[at as int] == placed@);
            assert(before + all.take(at as int + 1) =~= (before + all.take(at as int)).push(
                placed@,
            ));
        }
        list.push(placed);
        at += 1;
    }
    assert(all.take(at as int) =~= all);
}

fn list_base_paths(groups: &Vec<PackageGroup>) -> (result: Vec<String>)
    ensures
        texts(result@) == base_paths(crate::pak::paths::group_views(groups@)),
{
    let ghost all = base_paths(crate::pak::paths::group_views(groups@));
    let mut result: Vec<String> = Vec::new();
    let mut at: usize = 0;
    while at < groups.len()
        invariant
            at <= groups@.len(),
            all == base_paths(crate::pak::paths::group_views(groups@)),
            texts(result@) == all.take(at as int),
        decreases groups.len() - at,
    {
        let path = groups[at].base_path.clone();
        proof {
            texts_push(result@, path);
            assert(all[at as int] == path@);
            assert(all.take(at as int + 1) =~= all.take(at as int).push(path@));
        }
        result.push(path);
        at += 1;
    }
    assert(all.take(at as int) =~= all);
    result
}

/// The inventory by which a game profile is recognised: the full path of every
/// package and loose file of every input, each once.
pub fn profile_inventory(opened: &Vec<OpenedPak>) -> (result: Vec<String>)
    ensures
        texts(result@) == distinct(inventory_parts(views(opened@))),
{
    let mut list: Vec<String> = Vec::new();
    let ghost all = views(opened@);
    let mut at: usize = 0;
    proof {
        assert(all.take(0) =~= Seq::<OpenedPakView>::empty());
        assert(texts(list@) =~= Seq::<Seq<char>>::empty());
    }
    while at < opened.len()
        invariant
            at <= opened@.len(),
            all == views(opened@),
            texts(list@) == inventory_parts(all.take(at as int)),
        decreases opened.len() - at,
    {
        let input = &opened[at];
        let ghost before = texts(list@);
        let mount = trim_end_slashes(input.canonical_mount_point.as_str());
        proof {
            texts_push(list@, mount);
        }
        list.push(mount.clone());
        append_placed(
            &mut list,
            mount.as_str(),
            &list_base_paths(&input.canonical_packages.packages),
        );
        append_placed(&mut list, mount.as_str(), &input.canonical_packages.loose_entries);
        proof {
            assert(all.take(at as int + 1).drop_last() =~= all.take(at as int));
            assert(all.take(at as int + 1).last() == input@);
            assert(texts(list@) =~= before + inventory_part(input@));
        }
        at += 1;
    }
    assert(all.take(at as int) =~= all);
    sort_distinct(&list)
}

/// Whether a package consists of exactly a `.uasset` and a `.uexp`.
pub open spec fn is_database_pair(group: PackageGroupView) -> bool {
    &&& group.complete
    &&& group.components.uasset is Some
    &&& group.components.uexp is Some
    &&& group.components.ubulk is None
    &&& group.components.uptnl is None
}

/// Whether every provider's package may be a database.
pub open spec fn database_candidate(providers: Seq<GroupProviderView>) -> bool {
    forall|i: int| 0 <= i < providers.len() ==> is_database_pair((#[trigger] providers[i]).group)
}

pub fn is_database_candidate(providers: &Vec<GroupProvider>) -> (result: bool)
    ensures
        result == database_candidate(views(providers@)),
{
    let mut at: usize = 0;
    let ghost all = views(providers@);
    while at < providers.len()
        invariant
            at <= providers@.len(),
            all == views(providers@),
            forall|i: int| 0 <= i < at ==> is_database_pair((#[trigger] all[i]).group),
        decreases providers.len() - at,
    {
        let group = &providers[at].group;
        assert(all[at as int].group == group@);
        if !(group.complete && group.components.uasset.is_some() && group.components.uexp.is_some()
            && group.components.ubulk.is_none() && group.components.uptnl.is_none()) {
            return false;
        }
        at += 1;
    }
    true
}

/// Whether a unit has databases to compare.
pub open spec fn needs_database_parse(unit: AnalysisUnitView) -> bool {
    match unit {
        AnalysisUnitView::Package(list) => list.len() > 1 && database_candidate(list),
        AnalysisUnitView::Loose(_) => false,
    }
}

pub fn unit_requires_database_parse(unit: &AnalysisUnit) -> (result: bool)
    ensures
        result == needs_database_parse(unit@),
{
    match unit {
        AnalysisUnit::Package(list) => list.len() > 1 && is_database_candidate(list),
        AnalysisUnit::Loose(_) => false,
    }
}

/// The record of the file that stands under a canonical path.
pub open spec fn entry_at(input: OpenedPakView, path: Seq<char>) -> Outcome<PakEntryInventoryView> {
    match get(input.entry_index, folded(path)) {
        None => Err(MergeErrorView::InputChanged(path)),
        Some(at) => if at >= input.archive.inventory.entries.len() {
            Err(MergeErrorView::InputChanged(path))
        } else {
            Ok(input.archive.inventory.entries[at as int])
        },
    }
}

pub fn inventory_entry<'b>(opened: &'b OpenedPak, path: &str) -> (result: Result<
    &'b PakEntryInventory,
>)
    requires
        opened.well_formed(),
    ensures
        match (result, entry_at(opened@, path@)) {
            (Ok(entry), Ok(wanted)) => entry@ == wanted,
            (Err(error), Err(wanted)) => error@ == wanted,
            _ => false,
        },
{
    match opened.entry_index.find(sort_key(path).as_str()) {
        None => Err(MergeError::InputChanged(path.to_owned())),
        Some(found) => {
            let at: usize = opened.entry_index.items[found].1;
            if at >= opened.archive.inventory.entries.len() {
                return Err(MergeError::InputChanged(path.to_owned()));
            }
            assert(opened@.archive.inventory.entries[at as int]
                == opened.archive.inventory.entries@[at as int]@);
            Ok(&opened.archive.inventory.entries[at])
        },
    }
}

/// The path inside its archive of the file under a canonical path.
pub open spec fn archive_path(input: OpenedPakView, path: Seq<char>) -> Outcome<Seq<char>> {
    match entry_at(input, path) {
        Ok(entry) => Ok(entry.path),
        Err(error) => Err(error),
    }
}

pub fn archive_entry_path(opened: &OpenedPak, canonical_path: &str) -> (result: Result<String>)
    requires
        opened.well_formed(),
    ensures
        seen(result) == archive_path(opened@, canonical_path@),
{
    match inventory_entry(opened, canonical_path) {
        Ok(entry) => Ok(entry.path.clone()),
        Err(error) => Err(error),
    }
}

/// The digest of the logical bytes under a canonical path.
pub open spec fn canonical_digest(input: OpenedPakView, path: Seq<char>) -> Outcome<Seq<char>> {
    match archive_path(input, path) {
        Err(error) => Err(error),
        Ok(inner) => in_merge(logical_digest(input.archive, inner)),
    }
}

pub fn canonical_logical_sha256(opened: &OpenedPak, canonical_path: &str) -> (result: Result<String>)
    requires
        opened.well_formed(),
    ensures
        seen(result) == canonical_digest(opened@, canonical_path@),
{
    let inner = archive_entry_path(opened, canonical_path)?;
    match opened.archive.peek_sha256(inner.as_str()) {
        Ok(digest) => Ok(digest),
        Err(error) => Err(MergeError::Pak(error)),
    }
}

/// The logical bytes under a canonical path.
pub open spec fn canonical_bytes(input: OpenedPakView, path: Seq<char>) -> Outcome<Seq<u8>> {
    match archive_path(input, path) {
        Err(error) => Err(error),
        Ok(inner) => in_merge(mapped_bytes(input.archive, inner, usize::MAX as u64)),
    }
}

pub fn map_canonical_entry<'b>(opened: &'b OpenedPak, canonical_path: &str) -> (result: Result<
    PakEntryData<'b>,
>)
    requires
        opened.well_formed(),
    ensures
        seen(result) == canonical_bytes(opened@, canonical_path@),
{
    let inner = match archive_entry_path(opened, canonical_path) {
        Ok(inner) => inner,
        Err(error) => {
            return Err(error);
        },
    };
    match opened.archive.peek_entry(inner.as_str(), usize::MAX as u64) {
        Ok(bytes) => Ok(bytes),
        Err(error) => Err(MergeError::Pak(error)),
    }
}

/// The error of a package without one of its files.
pub open spec fn missing_component<W>(group: PackageGroupView, component: PackageComponent) -> Outcome<W> {
    Err(
        MergeErrorView::MissingPackageComponent {
            package: group.base_path,
            component: extension_of(component),
        },
    )
}

pub fn missing_package_component(group: &PackageGroup, component: PackageComponent) -> (error: MergeError)
    ensures
        error@ == (MergeErrorView::MissingPackageComponent {
            package: group@.base_path,
            component: extension_of(component),
        }),
{
    MergeError::MissingPackageComponent {
        package: group.base_path.clone(),
        component: component.extension(),
    }
}

/// The number of a component in digests.
pub open spec fn component_number(component: PackageComponent) -> u8 {
    match component {
        PackageComponent::Uasset => 0,
        PackageComponent::Uexp => 1,
        PackageComponent::Ubulk => 2,
        PackageComponent::Uptnl => 3,
    }
}

fn number_of(component: PackageComponent) -> (result: u8)
    ensures
        result == component_number(component),
{
    match component {
        PackageComponent::Uasset => 0,
        PackageComponent::Uexp => 1,
        PackageComponent::Ubulk => 2,
        PackageComponent::Uptnl => 3,
    }
}

/// The bytes over which a package's digest is taken.
pub open spec fn group_bytes_from(
    done: Seq<u8>,
    input: OpenedPakView,
    rest: Seq<(PackageComponent, Seq<char>)>,
) -> Outcome<Seq<u8>>
    decreases rest.len(),
{
    if rest.len() == 0 {
        Ok(done)
    } else {
        match canonical_digest(input, rest[0].1) {
            Err(error) => Err(error),
            Ok(digest) => group_bytes_from(
                done.push(component_number(rest[0].0)) + framed(encode_utf8(rest[0].1)) + framed(
                    encode_utf8(digest),
                ),
                input,
                rest.skip(1),
            ),
        }
    }
}

/// The digest of a package: its components, their paths and their contents.
pub open spec fn group_digest_of(input: OpenedPakView, group: PackageGroupView) -> Outcome<Seq<char>> {
    match group_bytes_from(
        encode_utf8("PAK-MERGER-PACKAGE-GROUP-V1"@),
        input,
        group.components.listed(),
    ) {
        Err(error) => Err(error),
        Ok(bytes) => Ok(sha256_text(bytes)),
    }
}

#[verifier::loop_isolation(false)]
pub fn group_digest(opened: &OpenedPak, group: &PackageGroup) -> (result: Result<String>)
    requires
        opened.well_formed(),
    ensures
        seen(result) == group_digest_of(opened@, group@),
{
    let listed = group.components.listed();
    let ghost all = group@.components.listed();
    let mut bytes = bytes_of("PAK-MERGER-PACKAGE-GROUP-V1");
    let ghost start = bytes@;
    let mut at: usize = 0;
    assert(all.skip(0) =~= all);
    while at < listed.len()
        invariant
            at <= listed@.len() == all.len(),
            all == listed@.map_values(|item: (PackageComponent, String)| (item.0, item.1@)),
            group_bytes_from(start, opened@, all) == group_bytes_from(
                bytes@,
                opened@,
                all.skip(at as int),
            ),
        decreases listed.len() - at,
    {
        proof {
            assert(all.skip(at as int)[0] == (listed@[at as int].0, listed@[at as int].1@));
            assert(all.skip(at as int).skip(1) =~= all.skip(at as int + 1));
        }
        let digest = canonical_logical_sha256(opened, listed[at].1.as_str())?;
        bytes.push(number_of(listed[at].0));
        update_framed_text(&mut bytes, listed[at].1.as_str());
        update_framed_text(&mut bytes, digest.as_str());
        at += 1;
    }
    Ok(sha256_hex(bytes.as_slice()))
}

/// The providers name inputs that are there, and there is at least one.
pub open spec fn usable_groups(providers: Seq<GroupProviderView>, inputs: nat) -> bool {
    &&& providers.len() > 0
    &&& forall|i: int| 0 <= i < providers.len() ==> (#[trigger] providers[i]).input_index < inputs
}

pub open spec fn usable_loose(providers: Seq<LooseProviderView>, inputs: nat) -> bool {
    &&& providers.len() > 0
    &&& forall|i: int| 0 <= i < providers.len() ==> (#[trigger] providers[i]).input_index < inputs
}

/// Whether the providers from `at` on hold the package that `digest` stands for.
pub open spec fn groups_match_from(
    opened: Seq<OpenedPakView>,
    providers: Seq<GroupProviderView>,
    at: int,
    digest: Seq<char>,
) -> Outcome<bool>
    decreases providers.len() - at,
{
    if at >= providers.len() {
        Ok(true)
    } else {
        match group_digest_of(opened[providers[at].input_index as int], providers[at].group) {
            Err(error) => Err(error),
            Ok(found) => if found != digest {
                Ok(false)
            } else {
                groups_match_from(opened, providers, at + 1, digest)
            },
        }
    }
}

/// Whether all providers hold the same package.
pub open spec fn groups_identical(opened: Seq<OpenedPakView>, providers: Seq<GroupProviderView>) -> Outcome<
    bool,
> {
    if providers.len() == 0 {
        Ok(true)
    } else {
        match group_digest_of(opened[providers[0].input_index as int], providers[0].group) {
            Err(error) => Err(error),
            Ok(digest) => groups_match_from(opened, providers, 1, digest),
        }
    }
}

#[verifier::loop_isolation(false)]
pub fn providers_semantically_identical(opened: &Vec<OpenedPak>, providers: &Vec<GroupProvider>) -> (result:
    Result<bool>)
    requires
        all_well_formed(opened@),
        forall|i: int|
            0 <= i < providers@.len() ==> (#[trigger] providers@[i]).input_index < opened@.len(),
    ensures
        seen(result) == groups_identical(views(opened@), views(providers@)),
{
    if providers.len() == 0 {
        return Ok(true);
    }
    let ghost all = views(providers@);
    let ghost inputs = views(opened@);
    proof {
        assert(all[0] == providers@[0]@);
        assert(inputs[providers@[0].input_index as int] == opened@[providers@[0].input_index as int]@);
        assert(opened@[providers@[0].input_index as int].well_formed());
    }
    let first = group_digest(&opened[providers[0].input_index], &providers[0].group)?;
    let mut at: usize = 1;
    while at < providers.len()
        invariant
            1 <= at <= providers@.len(),
            groups_match_from(inputs, all, 1, first@) == groups_match_from(
                inputs,
                all,
                at as int,
                first@,
            ),
        decreases providers.len() - at,
    {
        let index: usize = providers[at].input_index;
        proof {
            assert(all[at as int] == providers@[at as int]@);
            assert(inputs[index as int] == opened@[index as int]@);
            assert(opened@[index as int].well_formed());
        }
        let digest = group_digest(&opened[index], &providers[at].group)?;
        if !same_text(digest.as_str(), first.as_str()) {
            return Ok(false);
        }
        at += 1;
    }
    Ok(true)
}

/// Whether the providers from `at` on hold the file that `digest` stands for.
pub open spec fn loose_match_from(
    opened: Seq<OpenedPakView>,
    providers: Seq<LooseProviderView>,
    at: int,
    digest: Seq<char>,
) -> Outcome<bool>
    decreases providers.len() - at,
{
    if at >= providers.len() {
        Ok(true)
    } else {
        match canonical_digest(opened[providers[at].input_index as int], providers[at].path) {
            Err(error) => Err(error),
            Ok(found) => if found != digest {
                Ok(false)
            } else {
                loose_match_from(opened, providers, at + 1, digest)
            },
        }
    }
}

/// Whether all providers hold the same file.
pub open spec fn loose_same(opened: Seq<OpenedPakView>, providers: Seq<LooseProviderView>) -> Outcome<
    bool,
> {
    if providers.len() == 0 {
        Ok(true)
    } else {
        match canonical_digest(opened[providers[0].input_index as int], providers[0].path) {
            Err(error) => Err(error),
            Ok(digest) => loose_match_from(opened, providers, 1, digest),
        }
    }
}

#[verifier::loop_isolation(false)]
pub fn loose_identical(opened: &Vec<OpenedPak>, providers: &Vec<LooseProvider>) -> (result: Result<bool>)
    requires
        all_well_formed(opened@),
        forall|i: int|
            0 <= i < providers@.len() ==> (#[trigger] providers@[i]).input_index < opened@.len(),
    ensures
        seen(result) == loose_same(views(opened@), views(providers@)),
{
    if providers.len() == 0 {
        return Ok(true);
    }
    let ghost all = views(providers@);
    let ghost inputs = views(opened@);
    proof {
        assert(all[0] == providers@[0]@);
        assert(inputs[providers@[0].input_index as int] == opened@[providers@[0].input_index as int]@);
        assert(opened@[providers@[0].input_index as int].well_formed());
    }
    let first = canonical_logical_sha256(
        &opened[providers[0].input_index],
        providers[0].path.as_str(),
    )?;
    let mut at: usize = 1;
    while at < providers.len()
        invariant
            1 <= at <= providers@.len(),
            loose_match_from(inputs, all, 1, first@) == loose_match_from(
                inputs,
                all,
                at as int,
                first@,
            ),
        decreases providers.len() - at,
    {
        let index: usize = providers[at].input_index;
        proof {
            assert(all[at as int] == providers@[at as int]@);
            assert(inputs[index as int] == opened@[index as int]@);
            assert(opened@[index as int].well_formed());
        }
        let digest = canonical_logical_sha256(&opened[index], providers[at].path.as_str())?;
        if !same_text(digest.as_str(), first.as_str()) {
            return Ok(false);
        }
        at += 1;
    }
    Ok(true)
}

/// The ids of the inputs that provide a package.
pub open spec fn group_ids(opened: Seq<OpenedPakView>, providers: Seq<GroupProviderView>) -> Seq<Seq<char>> {
    providers.map_values(
        |provider: GroupProviderView| opened[provider.input_index as int].descriptor.id,
    )
}

/// The ids of the inputs that provide a file.
pub open spec fn loose_ids(opened: Seq<OpenedPakView>, providers: Seq<LooseProviderView>) -> Seq<Seq<char>> {
    providers.map_values(
        |provider: LooseProviderView| opened[provider.input_index as int].descriptor.id,
    )
}

/// The files of a package in all its providers.
pub open spec fn group_paths(providers: Seq<GroupProviderView>) -> Seq<Seq<char>>
    decreases providers.len(),
{
    if providers.len() == 0 {
        Seq::empty()
    } else {
        group_paths(providers.drop_last()) + providers.last().group.components.paths()
    }
}

/// The plan for a package.
pub open spec fn package_plan(
    providers: Seq<GroupProviderView>,
    opened: Seq<OpenedPakView>,
    action: AssetActionKind,
    conflict_ids: Seq<Seq<char>>,
    warnings: Seq<Seq<char>>,
) -> AssetPlanView {
    AssetPlanView {
        virtual_path: providers[0].group.base_path,
        package_entries: distinct(group_paths(providers)),
        action,
        donor_input_ids: distinct(group_ids(opened, providers)),
        conflict_ids,
        warnings,
        encoding_drift_count: 0,
    }
}

pub fn package_asset_plan(
    providers: &Vec<GroupProvider>,
    opened: &Vec<OpenedPak>,
    action: AssetActionKind,
    conflict_ids: Vec<String>,
    warnings: Vec<String>,
) -> (result: AssetPlan)
    requires
        providers@.len() > 0,
        forall|i: int|
            0 <= i < providers@.len() ==> (#[trigger] providers@[i]).input_index < opened@.len(),
    ensures
        result@ == package_plan(
            views(providers@),
            views(opened@),
            action,
            texts(conflict_ids@),
            texts(warnings@),
        ),
{
    let ghost all = views(providers@);
    let ghost inputs = views(opened@);
    let mut entries: Vec<String> = Vec::new();
    let mut donors: Vec<String> = Vec::new();
    let mut at: usize = 0;
    proof {
        assert(all.take(0) =~= Seq::<GroupProviderView>::empty());
        assert(texts(entries@) =~= Seq::<Seq<char>>::empty());
        assert(texts(donors@) =~= group_ids(inputs, all).take(0));
    }
    while at < providers.len()
        invariant
            at <= providers@.len(),
            all == views(providers@),
            inputs == views(opened@),
            forall|i: int|
                0 <= i < providers@.len() ==> (#[trigger] providers@[i]).input_index < opened@.len(),
            texts(entries@) == group_paths(all.take(at as int)),
            texts(donors@) == group_ids(inputs, all).take(at as int),
        decreases providers.len() - at,
    {
        let provider = &providers[at];
        let id = opened[provider.input_index].descriptor.id.clone();
        append_texts(&mut entries, &provider.group.components.paths());
        proof {
            assert(all[at as int] == provider@);
            assert(all.take(at as int + 1).drop_last() =~= all.take(at as int));
            assert(all.take(at as int + 1).last() == provider@);
            assert(inputs[provider.input_index as int] == opened@[provider.input_index as int]@);
            texts_push(donors@, id);
            assert(group_ids(inputs, all)[at as int] == id@);
            assert(group_ids(inputs, all).take(at as int + 1) =~= group_ids(inputs, all).take(
                at as int,
            ).push(id@));
        }
        donors.push(id);
        at += 1;
    }
    proof {
        assert(all.take(at as int) =~= all);
        assert(group_ids(inputs, all).take(at as int) =~= group_ids(inputs, all));
        assert(all[0] == providers@[0]@);
    }
    AssetPlan {
        virtual_path: providers[0].group.base_path.clone(),
        package_entries: sort_distinct(&entries),
        action,
        donor_input_ids: sort_distinct(&donors),
        conflict_ids,
        warnings,
        encoding_drift_count: 0,
    }
}

/// The plan for a file.
pub open spec fn loose_plan(
    providers: Seq<LooseProviderView>,
    opened: Seq<OpenedPakView>,
    action: AssetActionKind,
    conflict_ids: Seq<Seq<char>>,
) -> AssetPlanView {
    AssetPlanView {
        virtual_path: providers[0].path,
        package_entries: seq![providers[0].path],
        action,
        donor_input_ids: distinct(loose_ids(opened, providers)),
        conflict_ids,
        warnings: Seq::empty(),
        encoding_drift_count: 0,
    }
}

pub fn loose_asset_plan(
    providers: &Vec<LooseProvider>,
    opened: &Vec<OpenedPak>,
    action: AssetActionKind,
    conflict_ids: Vec<String>,
) -> (result: AssetPlan)
    requires
        providers@.len() > 0,
        forall|i: int|
            0 <= i < providers@.len() ==> (#[trigger] providers@[i]).input_index < opened@.len(),
    ensures
        result@ == loose_plan(views(providers@), views(opened@), action, texts(conflict_ids@)),
{
    let ghost all = views(providers@);
    let ghost inputs = views(opened@);
    let mut donors: Vec<String> = Vec::new();
    let mut at: usize = 0;
    assert(texts(donors@) =~= loose_ids(inputs, all).take(0));
    while at < providers.len()
        invariant
            at <= providers@.len(),
            all == views(providers@),
            inputs == views(opened@),
            forall|i: int|
                0 <= i < providers@.len() ==> (#[trigger] providers@[i]).input_index < opened@.len(),
            texts(donors@) == loose_ids(inputs, all).take(at as int),
        decreases providers.len() - at,
    {
        let provider = &providers[at];
        let id = opened[provider.input_index].descriptor.id.clone();
        proof {
            assert(all[at as int] == provider@);
            assert(inputs[provider.input_index as int] == opened@[provider.input_index as int]@);
            texts_push(donors@, id);
            assert(loose_ids(inputs, all)[at as int] == id@);
            assert(loose_ids(inputs, all).take(at as int + 1) =~= loose_ids(inputs, all).take(
                at as int,
            ).push(id@));
        }
        donors.push(id);
        at += 1;
    }
    proof {
        assert(loose_ids(inputs, all).take(at as int) =~= loose_ids(inputs, all));
        assert(all[0] == providers@[0]@);
    }
    let mut package_entries: Vec<String> = Vec::new();
    let path = providers[0].path.clone();
    proof {
        texts_push(package_entries@, path);
        assert(texts(package_entries@).push(path@) =~= seq![path@]);
    }
    package_entries.push(path);
    let warnings: Vec<String> = Vec::new();
    assert(texts(warnings@) =~= Seq::<Seq<char>>::empty());
    AssetPlan {
        virtual_path: providers[0].path.clone(),
        package_entries,
        action,
        donor_input_ids: sort_distinct(&donors),
        conflict_ids,
        warnings,
        encoding_drift_count: 0,
    }
}

} // verus!
