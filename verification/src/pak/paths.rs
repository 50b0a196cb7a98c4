//! Paths inside a Pak, its base folder, and the packages that files form.
use vstd::prelude::*;

use super::error::{seen, PakError, PakErrorView, Result};
use crate::ordered::{get, put, values, OrderedMap};
use crate::text::{
    ascii_lowercase, chars_of, ends_with, control_char, lowered, same_but_case, text_ends_with, text_of, text_take,
    texts, texts_push, to_ascii_lowercase, to_lowercase, clone_text, text_view,
};

verus! {

/// How many characters stand before the first `/`.
pub open spec fn head_len(text: Seq<char>) -> int
    decreases text.len(),
{
    if text.len() == 0 || text[0] == '/' {
        0
    } else {
        1 + head_len(text.skip(1))
    }
}

pub proof fn head_len_bounds(text: Seq<char>)
    ensures
        0 <= head_len(text) <= text.len(),
        forall|i: int| 0 <= i < head_len(text) ==> text[i] != '/',
        head_len(text) < text.len() ==> text[head_len(text)] == '/',
    decreases text.len(),
{
    if text.len() > 0 && text[0] != '/' {
        let rest = text.skip(1);
        head_len_bounds(rest);
        assert forall|i: int| 0 <= i < head_len(text) implies text[i] != '/' by {
            if i > 0 {
                assert(rest[i - 1] == text[i]);
            }
        }
        if head_len(text) < text.len() {
            assert(rest[head_len(rest)] == text[head_len(text)]);
        }
    }
}

/// What is wrong with the first component that may not stand in a path.
pub open spec fn component_fault(text: Seq<char>) -> Option<Seq<char>>
    decreases text.len(),
    via component_fault_decreases
{
    let end = head_len(text);
    let component = text.take(end);
    if end == 0 {
        Some("empty path component is forbidden"@)
    } else if component == seq!['.'] || component == seq!['.', '.'] {
        Some("dot traversal components are forbidden"@)
    } else if end >= text.len() {
        None
    } else {
        component_fault(text.skip(end + 1))
    }
}

#[via_fn]
proof fn component_fault_decreases(text: Seq<char>) {
    head_len_bounds(text);
}

/// Why a path may not stand in a Pak.
pub open spec fn entry_path_fault(path: Seq<char>) -> Option<Seq<char>> {
    if path.len() == 0 {
        Some("path is empty"@)
    } else if path[0] == '/' || path[0] == '\\' {
        Some("absolute paths are forbidden"@)
    } else if path.contains('\\') {
        Some("backslashes are forbidden"@)
    } else if exists|i: int| 0 <= i < path.len() && control_char(#[trigger] path[i]) {
        Some("NUL/control characters are forbidden"@)
    } else if path.contains(':') {
        Some("drive/device/alternate-stream separators are forbidden"@)
    } else {
        component_fault(path)
    }
}

/// A path inside a Pak: relative, `/` between its components, none of them
/// empty, `.` or `..`. An accepted path stands as it is.
pub open spec fn normal_path(path: Seq<char>) -> std::result::Result<Seq<char>, PakErrorView> {
    match entry_path_fault(path) {
        Some(reason) => Err(PakErrorView::InvalidPath { path, reason }),
        None => Ok(path),
    }
}

proof fn same_but_case_parts(left: Seq<char>, right: Seq<char>)
    requires
        same_but_case(left, right),
    ensures
        left.len() == right.len(),
        forall|i: int|
            0 <= i < left.len() ==> {
                &&& #[trigger] left[i] == '/' <==> right[i] == '/'
                &&& left[i] == '\\' <==> right[i] == '\\'
                &&& left[i] == ':' <==> right[i] == ':'
                &&& left[i] == '.' <==> right[i] == '.'
                &&& control_char(left[i]) <==> control_char(right[i])
                &&& (left[i] as u32 <= 0x7F) <==> (right[i] as u32 <= 0x7F)
            },
{
    let a = ascii_lowercase(left);
    let b = ascii_lowercase(right);
    assert(a.len() == left.len() && b.len() == right.len());
    assert forall|i: int| 0 <= i < left.len() implies {
        &&& #[trigger] left[i] == '/' <==> right[i] == '/'
        &&& left[i] == '\\' <==> right[i] == '\\'
        &&& left[i] == ':' <==> right[i] == ':'
        &&& left[i] == '.' <==> right[i] == '.'
        &&& control_char(left[i]) <==> control_char(right[i])
        &&& (left[i] as u32 <= 0x7F) <==> (right[i] as u32 <= 0x7F)
    } by {
        assert(a[i] == b[i]);
    }
}

proof fn case_keeps_the_head(left: Seq<char>, right: Seq<char>)
    requires
        same_but_case(left, right),
    ensures
        head_len(left) == head_len(right),
    decreases left.len(),
{
    same_but_case_parts(left, right);
    if left.len() > 0 && left[0] != '/' {
        case_keeps_parts(left, right, 1);
        case_keeps_the_head(left.skip(1), right.skip(1));
    }
}

proof fn case_keeps_parts(left: Seq<char>, right: Seq<char>, at: int)
    requires
        same_but_case(left, right),
        0 <= at <= left.len(),
    ensures
        same_but_case(left.skip(at), right.skip(at)),
{
    same_but_case_parts(left, right);
    assert(ascii_lowercase(left.skip(at)) =~= ascii_lowercase(left).skip(at));
    assert(ascii_lowercase(right.skip(at)) =~= ascii_lowercase(right).skip(at));
}

proof fn case_keeps_component_faults(left: Seq<char>, right: Seq<char>)
    requires
        same_but_case(left, right),
    ensures
        component_fault(left) == component_fault(right),
    decreases left.len(),
{
    same_but_case_parts(left, right);
    case_keeps_the_head(left, right);
    head_len_bounds(left);
    let end = head_len(left);
    let a = left.take(end);
    let b = right.take(end);
    assert(a == seq!['.'] <==> b == seq!['.']) by {
        if a == seq!['.'] {
            assert(a.len() == 1);
            assert(left[0] == a[0]);
            assert(b =~= seq!['.']);
        }
        if b == seq!['.'] {
            assert(b.len() == 1);
            assert(right[0] == b[0]);
            assert(left[0] == '.');
            assert(a =~= seq!['.']);
        }
    }
    assert(a == seq!['.', '.'] <==> b == seq!['.', '.']) by {
        if a == seq!['.', '.'] {
            assert(a.len() == 2);
            assert(left[0] == a[0] && left[1] == a[1]);
            assert(b =~= seq!['.', '.']);
        }
        if b == seq!['.', '.'] {
            assert(b.len() == 2);
            assert(right[0] == b[0] && right[1] == b[1]);
            assert(left[0] == '.' && left[1] == '.');
            assert(a =~= seq!['.', '.']);
        }
    }
    if 0 < end < left.len() {
        case_keeps_parts(left, right, end + 1);
        case_keeps_component_faults(left.skip(end + 1), right.skip(end + 1));
    }
}

/// The case of ASCII letters decides neither whether a path may stand in a Pak nor
/// which file it names.
pub proof fn letter_case_does_not_matter(left: Seq<char>, right: Seq<char>)
    requires
        same_but_case(left, right),
    ensures
        entry_path_fault(left) == entry_path_fault(right),
        sort_key_of(left) == sort_key_of(right),
{
    same_but_case_parts(left, right);
    case_keeps_component_faults(left, right);
    assert(left.contains('\\') == right.contains('\\')) by {
        if left.contains('\\') {
            let i = choose|i: int| 0 <= i < left.len() && left[i] == '\\';
            assert(right[i] == '\\');
        }
        if right.contains('\\') {
            let i = choose|i: int| 0 <= i < right.len() && right[i] == '\\';
            assert(left[i] == '\\');
        }
    }
    assert(left.contains(':') == right.contains(':')) by {
        if left.contains(':') {
            let i = choose|i: int| 0 <= i < left.len() && left[i] == ':';
            assert(right[i] == ':');
        }
        if right.contains(':') {
            let i = choose|i: int| 0 <= i < right.len() && right[i] == ':';
            assert(left[i] == ':');
        }
    }
    if exists|i: int| 0 <= i < left.len() && control_char(#[trigger] left[i]) {
        let i = choose|i: int| 0 <= i < left.len() && control_char(#[trigger] left[i]);
        assert(control_char(right[i]));
    }
    if exists|i: int| 0 <= i < right.len() && control_char(#[trigger] right[i]) {
        let i = choose|i: int| 0 <= i < right.len() && control_char(#[trigger] right[i]);
        assert(control_char(left[i]));
    }
}

/// Why a text may not be the base folder of a Pak.
pub open spec fn mount_point_fault(mount: Seq<char>) -> Option<Seq<char>> {
    if mount.len() == 0 {
        Some("the Pak base folder is empty"@)
    } else if mount[0] == '/' || mount[0] == '\\' {
        Some("an absolute Pak base folder is not allowed"@)
    } else if mount.contains('\\') || exists|i: int|
        0 <= i < mount.len() && control_char(#[trigger] mount[i]) {
        Some("backslashes and NUL/control characters are forbidden"@)
    } else if mount.take(head_len(mount)).contains(':') {
        Some("drive/device prefixes are forbidden"@)
    } else if exists|i: int|
        0 <= i < mount.len() - 1 && #[trigger] mount[i] == '/' && mount[i + 1] == '/' {
        Some("the Pak base folder contains an empty path segment"@)
    } else {
        None
    }
}

/// The base folder of a Pak, closed by `/`.
pub open spec fn normal_mount(mount: Seq<char>) -> std::result::Result<Seq<char>, PakErrorView> {
    match mount_point_fault(mount) {
        Some(reason) => Err(PakErrorView::InvalidMountPoint { mount_point: mount, reason }),
        None => Ok(
            if mount.last() == '/' {
                mount
            } else {
                mount.push('/')
            },
        ),
    }
}

proof fn closing_keeps_the_head(mount: Seq<char>)
    ensures
        mount.push('/').take(head_len(mount.push('/'))) == mount.take(head_len(mount)),
        head_len(mount.push('/')) == head_len(mount),
    decreases mount.len(),
{
    let closed = mount.push('/');
    head_len_bounds(mount);
    head_len_bounds(closed);
    if mount.len() > 0 && mount[0] != '/' {
        assert(closed.skip(1) =~= mount.skip(1).push('/'));
        closing_keeps_the_head(mount.skip(1));
    }
    assert(closed.take(head_len(mount)) =~= mount.take(head_len(mount)));
}

/// A base folder that has been brought into its normal form stays as it is.
pub proof fn normal_mounts_stay(mount: Seq<char>)
    ensures
        normal_mount(mount) matches Ok(normal) ==> normal.last() == '/' && normal_mount(normal)
            == Ok::<Seq<char>, PakErrorView>(normal),
{
    if mount_point_fault(mount) is None && mount.last() != '/' {
        let closed = mount.push('/');
        closing_keeps_the_head(mount);
        assert(closed[0] == mount[0]);
        if closed.contains('\\') {
            let i = choose|i: int| 0 <= i < closed.len() && closed[i] == '\\';
            assert(mount[i] == '\\');
            assert(mount.contains('\\'));
        }
        if exists|i: int| 0 <= i < closed.len() && control_char(#[trigger] closed[i]) {
            let i = choose|i: int| 0 <= i < closed.len() && control_char(#[trigger] closed[i]);
            if i < mount.len() {
                assert(control_char(mount[i]));
            }
        }
        if exists|i: int|
            0 <= i < closed.len() - 1 && #[trigger] closed[i] == '/' && closed[i + 1] == '/' {
            let i = choose|i: int|
                0 <= i < closed.len() - 1 && #[trigger] closed[i] == '/' && closed[i + 1] == '/';
            assert(mount[i] == '/');
            assert(i + 1 < mount.len());
            assert(mount[i + 1] == '/');
        }
        assert(mount_point_fault(closed) is None);
    }
}

/// Two paths name the same file when their keys are equal. The key of a path is
/// the path in small letters, of which the ASCII letters are folded first.
pub open spec fn sort_key_of(path: Seq<char>) -> Seq<char> {
    lowered(ascii_lowercase(path))
}

fn contains_char(chars: &Vec<char>, wanted: char) -> (result: bool)
    ensures
        result == chars@.contains(wanted),
{
    let mut at: usize = 0;
    while at < chars.len()
        invariant
            at <= chars@.len(),
            forall|i: int| 0 <= i < at ==> chars@[i] != wanted,
        decreases chars.len() - at,
    {
        if chars[at] == wanted {
            return true;
        }
        at += 1;
    }
    false
}

fn contains_control(chars: &Vec<char>) -> (result: bool)
    ensures
        result == exists|i: int| 0 <= i < chars@.len() && control_char(#[trigger] chars@[i]),
{
    let mut at: usize = 0;
    while at < chars.len()
        invariant
            at <= chars@.len(),
            forall|i: int| 0 <= i < at ==> !control_char(#[trigger] chars@[i]),
        decreases chars.len() - at,
    {
        if chars[at].is_control() {
            return true;
        }
        at += 1;
    }
    false
}

/// The end of the component that starts at `start`.
fn component_end(chars: &Vec<char>, start: usize) -> (end: usize)
    requires
        start <= chars@.len(),
    ensures
        end == start + head_len(chars@.skip(start as int)),
        start <= end <= chars@.len(),
{
    let mut end: usize = start;
    while end < chars.len() && chars[end] != '/'
        invariant
            start <= end <= chars@.len(),
            head_len(chars@.skip(start as int)) == end - start + head_len(chars@.skip(end as int)),
        decreases chars.len() - end,
    {
        assert(chars@.skip(end as int).skip(1) == chars@.skip(end as int + 1));
        end += 1;
    }
    end
}

fn invalid_path(path: &str, reason: &str) -> (error: PakError)
    ensures
        error@ == (PakErrorView::InvalidPath { path: path@, reason: reason@ }),
{
    PakError::InvalidPath { path: path.to_owned(), reason: reason.to_owned() }
}

pub fn normalize_entry_path(path: &str) -> (result: Result<String>)
    ensures
        seen(result) == normal_path(path@),
{
    let chars = chars_of(path);
    if chars.len() == 0 {
        return Err(invalid_path(path, "path is empty"));
    }
    if chars[0] == '/' || chars[0] == '\\' {
        return Err(invalid_path(path, "absolute paths are forbidden"));
    }
    if contains_char(&chars, '\\') {
        return Err(invalid_path(path, "backslashes are forbidden"));
    }
    if contains_control(&chars) {
        return Err(invalid_path(path, "NUL/control characters are forbidden"));
    }
    if contains_char(&chars, ':') {
        return Err(invalid_path(path, "drive/device/alternate-stream separators are forbidden"));
    }
    let mut start: usize = 0;
    proof {
        assert(chars@.skip(0) == chars@);
    }
    loop
        invariant
            start <= chars@.len(),
            chars@ == path@,
            entry_path_fault(path@) == component_fault(chars@.skip(start as int)),
        decreases chars.len() - start,
    {
        let end: usize = component_end(&chars, start);
        let ghost tail = chars@.skip(start as int);
        proof {
            assert(tail.take(end - start) == chars@.subrange(start as int, end as int));
        }
        if end == start {
            return Err(invalid_path(path, "empty path component is forbidden"));
        }
        if (end - start == 1 && chars[start] == '.') || (end - start == 2 && chars[start] == '.'
            && chars[start + 1] == '.') {
            proof {
                if end - start == 1 {
                    assert(tail.take(end - start) == seq!['.']);
                } else {
                    assert(tail.take(end - start) == seq!['.', '.']);
                }
            }
            return Err(invalid_path(path, "dot traversal components are forbidden"));
        }
        proof {
            let component = tail.take(end - start);
            assert(component[0] == chars@[start as int]);
            if component == seq!['.', '.'] {
                assert(component[1] == chars@[start as int + 1]);
            }
        }
        if end >= chars.len() {
            return Ok(path.to_owned());
        }
        proof {
            assert(tail.skip(end - start + 1) == chars@.skip(end as int + 1));
        }
        start = end + 1;
    }
}

fn invalid_mount(mount_point: &str, reason: &str) -> (error: PakError)
    ensures
        error@ == (PakErrorView::InvalidMountPoint { mount_point: mount_point@, reason: reason@ }),
{
    PakError::InvalidMountPoint { mount_point: mount_point.to_owned(), reason: reason.to_owned() }
}

fn contains_double_slash(chars: &Vec<char>) -> (result: bool)
    ensures
        result == exists|i: int|
            0 <= i < chars@.len() - 1 && #[trigger] chars@[i] == '/' && chars@[i + 1] == '/',
{
    let mut at: usize = 0;
    while chars.len() - at > 1
        invariant
            at <= chars@.len(),
            forall|i: int|
                0 <= i < at && i < chars@.len() - 1 ==> !(#[trigger] chars@[i] == '/' && chars@[i + 1]
                    == '/'),
        decreases chars.len() - at,
    {
        if chars[at] == '/' && chars[at + 1] == '/' {
            return true;
        }
        at += 1;
    }
    false
}

pub fn normalize_mount_point(mount_point: &str) -> (result: Result<String>)
    ensures
        seen(result) == normal_mount(mount_point@),
{
    let chars = chars_of(mount_point);
    if chars.len() == 0 {
        return Err(invalid_mount(mount_point, "the Pak base folder is empty"));
    }
    if chars[0] == '/' || chars[0] == '\\' {
        return Err(invalid_mount(mount_point, "an absolute Pak base folder is not allowed"));
    }
    if contains_char(&chars, '\\') || contains_control(&chars) {
        return Err(
            invalid_mount(mount_point, "backslashes and NUL/control characters are forbidden"),
        );
    }
    proof {
        assert(chars@.skip(0) == chars@);
    }
    let head: usize = component_end(&chars, 0);
    let first = text_of(&chars, 0, head);
    assert(first@ == mount_point@.take(head_len(mount_point@)));
    if crate::text::text_contains(first.as_str(), ':') {
        return Err(invalid_mount(mount_point, "drive/device prefixes are forbidden"));
    }
    if contains_double_slash(&chars) {
        return Err(invalid_mount(mount_point, "the Pak base folder contains an empty path segment"));
    }
    let mut normalized = mount_point.to_owned();
    if chars[chars.len() - 1] != '/' {
        normalized.push('/');
    }
    Ok(normalized)
}

pub fn normalized_sort_key(path: &str) -> (key: String)
    ensures
        key@ == sort_key_of(path@),
{
    proof {
        reveal(lowered);
    }
    to_lowercase(to_ascii_lowercase(path).as_str())
}

/// The files that form one Unreal package.
#[derive(Debug, Clone, Copy, PartialEq, Eq, Structural)]
pub enum PackageComponent {
    Uasset,
    Uexp,
    Ubulk,
    Uptnl,
}

pub open spec fn extension_of(component: PackageComponent) -> Seq<char> {
    match component {
        PackageComponent::Uasset => ".uasset"@,
        PackageComponent::Uexp => ".uexp"@,
        PackageComponent::Ubulk => ".ubulk"@,
        PackageComponent::Uptnl => ".uptnl"@,
    }
}

/// The component that a path names, and the path of its package.
pub open spec fn component_of(path: Seq<char>) -> Option<(PackageComponent, Seq<char>)> {
    let lower = ascii_lowercase(path);
    if ends_with(lower, ".uasset"@) {
        Some((PackageComponent::Uasset, path.take(path.len() - ".uasset"@.len())))
    } else if ends_with(lower, ".uexp"@) {
        Some((PackageComponent::Uexp, path.take(path.len() - ".uexp"@.len())))
    } else if ends_with(lower, ".ubulk"@) {
        Some((PackageComponent::Ubulk, path.take(path.len() - ".ubulk"@.len())))
    } else if ends_with(lower, ".uptnl"@) {
        Some((PackageComponent::Uptnl, path.take(path.len() - ".uptnl"@.len())))
    } else {
        None
    }
}

impl PackageComponent {
    pub fn extension(self) -> (result: &'static str)
        ensures
            result@ == extension_of(self),
    {
        match self {
            PackageComponent::Uasset => ".uasset",
            PackageComponent::Uexp => ".uexp",
            PackageComponent::Ubulk => ".ubulk",
            PackageComponent::Uptnl => ".uptnl",
        }
    }

    pub fn from_path(path: &str) -> (result: Option<(PackageComponent, String)>)
        ensures
            match (result, component_of(path@)) {
                (Some((component, base)), Some((wanted, stem))) => component == wanted && base@ == stem,
                (None, None) => true,
                _ => false,
            },
    {
        let lower = to_ascii_lowercase(path);
        let count: usize = chars_of(path).len();
        proof {
            reveal_strlit(".uasset");
            reveal_strlit(".uexp");
            reveal_strlit(".ubulk");
            reveal_strlit(".uptnl");
        }
        if text_ends_with(lower.as_str(), ".uasset") {
            return Some((PackageComponent::Uasset, text_take(path, count - 7)));
        }
        if text_ends_with(lower.as_str(), ".uexp") {
            return Some((PackageComponent::Uexp, text_take(path, count - 5)));
        }
        if text_ends_with(lower.as_str(), ".ubulk") {
            return Some((PackageComponent::Ubulk, text_take(path, count - 6)));
        }
        if text_ends_with(lower.as_str(), ".uptnl") {
            return Some((PackageComponent::Uptnl, text_take(path, count - 6)));
        }
        None
    }
}

/// The paths of the components that a package has.
#[derive(Debug, Clone, PartialEq, Eq)]
pub struct PackageComponents {
    pub uasset: Option<String>,
    pub uexp: Option<String>,
    pub ubulk: Option<String>,
    pub uptnl: Option<String>,
}

#[verifier::ext_equal]
pub struct PackageComponentsView {
    pub uasset: Option<Seq<char>>,
    pub uexp: Option<Seq<char>>,
    pub ubulk: Option<Seq<char>>,
    pub uptnl: Option<Seq<char>>,
}

impl View for PackageComponents {
    type V = PackageComponentsView;

    open spec fn view(&self) -> PackageComponentsView {
        PackageComponentsView {
            uasset: text_view(self.uasset),
            uexp: text_view(self.uexp),
            ubulk: text_view(self.ubulk),
            uptnl: text_view(self.uptnl),
        }
    }
}

impl PackageComponentsView {
    pub open spec fn get(self, component: PackageComponent) -> Option<Seq<char>> {
        match component {
            PackageComponent::Uasset => self.uasset,
            PackageComponent::Uexp => self.uexp,
            PackageComponent::Ubulk => self.ubulk,
            PackageComponent::Uptnl => self.uptnl,
        }
    }

    pub open spec fn with(self, component: PackageComponent, path: Seq<char>) -> Self {
        match component {
            PackageComponent::Uasset => PackageComponentsView { uasset: Some(path), ..self },
            PackageComponent::Uexp => PackageComponentsView { uexp: Some(path), ..self },
            PackageComponent::Ubulk => PackageComponentsView { ubulk: Some(path), ..self },
            PackageComponent::Uptnl => PackageComponentsView { uptnl: Some(path), ..self },
        }
    }

    /// The components that are there, with their paths, in the order of the
    /// components.
    pub open spec fn listed(self) -> Seq<(PackageComponent, Seq<char>)> {
        listed_one(PackageComponent::Uasset, self.uasset) + listed_one(
            PackageComponent::Uexp,
            self.uexp,
        ) + listed_one(PackageComponent::Ubulk, self.ubulk) + listed_one(
            PackageComponent::Uptnl,
            self.uptnl,
        )
    }

    /// The paths that are there, in the order of the components.
    pub open spec fn paths(self) -> Seq<Seq<char>> {
        self.listed().map_values(|item: (PackageComponent, Seq<char>)| item.1)
    }
}

pub open spec fn listed_one(component: PackageComponent, path: Option<Seq<char>>) -> Seq<
    (PackageComponent, Seq<char>),
> {
    match path {
        Some(path) => seq![(component, path)],
        None => Seq::empty(),
    }
}

pub open spec fn no_components() -> PackageComponentsView {
    PackageComponentsView { uasset: None, uexp: None, ubulk: None, uptnl: None }
}

impl PackageComponents {
    pub fn new() -> (result: Self)
        ensures
            result@ == no_components(),
    {
        PackageComponents { uasset: None, uexp: None, ubulk: None, uptnl: None }
    }

    pub fn insert(&mut self, component: PackageComponent, path: String)
        ensures
            final(self)@ == old(self)@.with(component, path@),
    {
        match component {
            PackageComponent::Uasset => self.uasset = Some(path),
            PackageComponent::Uexp => self.uexp = Some(path),
            PackageComponent::Ubulk => self.ubulk = Some(path),
            PackageComponent::Uptnl => self.uptnl = Some(path),
        }
    }

    pub fn get(&self, component: PackageComponent) -> (result: Option<&String>)
        ensures
            match (result, self@.get(component)) {
                (Some(path), Some(wanted)) => path@ == wanted,
                (None, None) => true,
                _ => false,
            },
    {
        match component {
            PackageComponent::Uasset => self.uasset.as_ref(),
            PackageComponent::Uexp => self.uexp.as_ref(),
            PackageComponent::Ubulk => self.ubulk.as_ref(),
            PackageComponent::Uptnl => self.uptnl.as_ref(),
        }
    }

    pub fn contains_key(&self, component: PackageComponent) -> (result: bool)
        ensures
            result == (self@.get(component) is Some),
    {
        self.get(component).is_some()
    }

    /// The components that are there, with their paths.
    pub fn listed(&self) -> (result: Vec<(PackageComponent, String)>)
        ensures
            result@.map_values(|item: (PackageComponent, String)| (item.0, item.1@)) == self@.listed(),
    {
        let mut result: Vec<(PackageComponent, String)> = Vec::new();
        if let Some(path) = &self.uasset {
            result.push((PackageComponent::Uasset, path.clone()));
        }
        if let Some(path) = &self.uexp {
            result.push((PackageComponent::Uexp, path.clone()));
        }
        if let Some(path) = &self.ubulk {
            result.push((PackageComponent::Ubulk, path.clone()));
        }
        if let Some(path) = &self.uptnl {
            result.push((PackageComponent::Uptnl, path.clone()));
        }
        assert(result@.map_values(|item: (PackageComponent, String)| (item.0, item.1@))
            =~= self@.listed());
        result
    }

    /// The paths that are there, in the order of the components.
    pub fn paths(&self) -> (result: Vec<String>)
        ensures
            texts(result@) == self@.paths(),
    {
        let mut result: Vec<String> = Vec::new();
        if let Some(path) = &self.uasset {
            result.push(path.clone());
        }
        if let Some(path) = &self.uexp {
            result.push(path.clone());
        }
        if let Some(path) = &self.ubulk {
            result.push(path.clone());
        }
        if let Some(path) = &self.uptnl {
            result.push(path.clone());
        }
        assert(texts(result@) =~= self@.paths());
        result
    }

    pub fn copy(&self) -> (result: Self)
        ensures
            result@ == self@,
    {
        PackageComponents {
            uasset: clone_text(&self.uasset),
            uexp: clone_text(&self.uexp),
            ubulk: clone_text(&self.ubulk),
            uptnl: clone_text(&self.uptnl),
        }
    }
}

/// The files that share one path but for the extension.
#[derive(Debug, Clone, PartialEq, Eq)]
pub struct PackageGroup {
    pub base_path: String,
    pub components: PackageComponents,
    /// A package is incomplete when a sidecar exists without its `.uasset`.
    pub complete: bool,
}

#[verifier::ext_equal]
pub struct PackageGroupView {
    pub base_path: Seq<char>,
    pub components: PackageComponentsView,
    pub complete: bool,
}

impl View for PackageGroup {
    type V = PackageGroupView;

    open spec fn view(&self) -> PackageGroupView {
        PackageGroupView {
            base_path: self.base_path@,
            components: self.components@,
            complete: self.complete,
        }
    }
}

impl PackageGroup {
    pub fn copy(&self) -> (result: Self)
        ensures
            result@ == self@,
    {
        PackageGroup {
            base_path: self.base_path.clone(),
            components: self.components.copy(),
            complete: self.complete,
        }
    }
}

#[derive(Debug, Clone, PartialEq, Eq)]
pub struct PackageGrouping {
    pub packages: Vec<PackageGroup>,
    pub loose_entries: Vec<String>,
}

#[verifier::ext_equal]
pub struct PackageGroupingView {
    pub packages: Seq<PackageGroupView>,
    pub loose_entries: Seq<Seq<char>>,
}

pub open spec fn group_views(groups: Seq<PackageGroup>) -> Seq<PackageGroupView> {
    groups.map_values(|group: PackageGroup| group@)
}

impl View for PackageGrouping {
    type V = PackageGroupingView;

    open spec fn view(&self) -> PackageGroupingView {
        PackageGroupingView {
            packages: group_views(self.packages@),
            loose_entries: texts(self.loose_entries@),
        }
    }
}

/// The packages with `path` as the `component` of the package at `base`. A
/// package keeps the path under which it was first met, and is complete once it
/// has a `.uasset`.
pub open spec fn with_component(
    packages: Seq<(Seq<char>, PackageGroupView)>,
    base: Seq<char>,
    component: PackageComponent,
    path: Seq<char>,
) -> Seq<(Seq<char>, PackageGroupView)> {
    let key = sort_key_of(base);
    let before = match get(packages, key) {
        Some(group) => group,
        None => PackageGroupView { base_path: base, components: no_components(), complete: false },
    };
    put(
        packages,
        key,
        PackageGroupView {
            base_path: before.base_path,
            components: before.components.with(component, path),
            complete: before.complete || component == PackageComponent::Uasset,
        },
    )
}

/// Groups the rest of the paths, after the ones that were met already.
pub open spec fn grouped_from(
    packages: Seq<(Seq<char>, PackageGroupView)>,
    loose: Seq<(Seq<char>, Seq<char>)>,
    met: Seq<(Seq<char>, Seq<char>)>,
    rest: Seq<Seq<char>>,
) -> std::result::Result<PackageGroupingView, PakErrorView>
    decreases rest.len(),
{
    if rest.len() == 0 {
        Ok(PackageGroupingView { packages: values(packages), loose_entries: values(loose) })
    } else {
        match normal_path(rest[0]) {
            Err(error) => Err(error),
            Ok(path) => {
                let key = sort_key_of(path);
                match get(met, key) {
                    Some(first) => Err(PakErrorView::DuplicatePath { first, second: path }),
                    None => match component_of(path) {
                        Some((component, base)) => grouped_from(
                            with_component(packages, base, component, path),
                            loose,
                            put(met, key, path),
                            rest.skip(1),
                        ),
                        None => grouped_from(
                            packages,
                            put(loose, key, path),
                            put(met, key, path),
                            rest.skip(1),
                        ),
                    },
                }
            },
        }
    }
}

/// The packages and the other files among `paths`, each in the order of its
/// key; a path that occurs twice, letter case aside, is refused.
pub open spec fn grouped(paths: Seq<Seq<char>>) -> std::result::Result<
    PackageGroupingView,
    PakErrorView,
> {
    grouped_from(Seq::empty(), Seq::empty(), Seq::empty(), paths)
}

/// Only paths that may stand in a Pak are grouped.
pub proof fn grouped_paths_are_normal(
    packages: Seq<(Seq<char>, PackageGroupView)>,
    loose: Seq<(Seq<char>, Seq<char>)>,
    met: Seq<(Seq<char>, Seq<char>)>,
    rest: Seq<Seq<char>>,
    at: int,
)
    requires
        0 <= at < rest.len(),
        grouped_from(packages, loose, met, rest) is Ok,
    ensures
        normal_path(rest[at]) == Ok::<Seq<char>, PakErrorView>(rest[at]),
    decreases rest.len(),
{
    if at > 0 {
        let path = rest[0];
        let key = sort_key_of(path);
        assert(rest.skip(1)[at - 1] == rest[at]);
        match component_of(path) {
            Some((component, base)) => {
                grouped_paths_are_normal(
                    with_component(packages, base, component, path),
                    loose,
                    put(met, key, path),
                    rest.skip(1),
                    at - 1,
                );
            },
            None => {
                grouped_paths_are_normal(
                    packages,
                    put(loose, key, path),
                    put(met, key, path),
                    rest.skip(1),
                    at - 1,
                );
            },
        }
    }
}

fn take_values(map: OrderedMap<String>) -> (result: Vec<String>)
    ensures
        texts(result@) == values(map@),
{
    let mut result: Vec<String> = Vec::new();
    let mut at: usize = 0;
    while at < map.items.len()
        invariant
            at <= map.items@.len(),
            texts(result@) == values(map@).take(at as int),
        decreases map.items.len() - at,
    {
        let text = map.items[at].1.clone();
        proof {
            texts_push(result@, text);
            assert(values(map@).take(at as int + 1) =~= values(map@).take(at as int).push(text@));
        }
        result.push(text);
        at += 1;
    }
    assert(values(map@).take(at as int) =~= values(map@));
    result
}

fn take_groups(map: OrderedMap<PackageGroup>) -> (result: Vec<PackageGroup>)
    ensures
        group_views(result@) == values(map@),
{
    let mut result: Vec<PackageGroup> = Vec::new();
    let mut at: usize = 0;
    while at < map.items.len()
        invariant
            at <= map.items@.len(),
            group_views(result@) == values(map@).take(at as int),
        decreases map.items.len() - at,
    {
        let group = map.items[at].1.copy();
        proof {
            assert(group_views(result@.push(group)) =~= group_views(result@).push(group@));
            assert(values(map@).take(at as int + 1) =~= values(map@).take(at as int).push(group@));
        }
        result.push(group);
        at += 1;
    }
    assert(values(map@).take(at as int) =~= values(map@));
    result
}

fn add_component(
    packages: &mut OrderedMap<PackageGroup>,
    base: String,
    component: PackageComponent,
    path: String,
)
    requires
        old(packages).well_formed(),
    ensures
        final(packages).well_formed(),
        final(packages)@ == with_component(old(packages)@, base@, component, path@),
{
    let key = normalized_sort_key(base.as_str());
    let mut group = match packages.find(key.as_str()) {
        Some(at) => packages.items[at].1.copy(),
        None => PackageGroup {
            base_path: base,
            components: PackageComponents::new(),
            complete: false,
        },
    };
    group.components.insert(component, path);
    if component == PackageComponent::Uasset {
        group.complete = true;
    }
    packages.insert(key, group);
}

pub fn group_packages(paths: &Vec<String>) -> (result: Result<PackageGrouping>)
    ensures
        seen(result) == grouped(texts(paths@)),
{
    let mut packages: OrderedMap<PackageGroup> = OrderedMap::new();
    let mut loose: OrderedMap<String> = OrderedMap::new();
    let mut met: OrderedMap<String> = OrderedMap::new();
    let mut at: usize = 0;
    let ghost all = texts(paths@);
    proof {
        assert(all.skip(0) == all);
    }
    while at < paths.len()
        invariant
            at <= paths@.len(),
            all == texts(paths@),
            packages.well_formed(),
            loose.well_formed(),
            met.well_formed(),
            grouped(all) == grouped_from(packages@, loose@, met@, all.skip(at as int)),
        decreases paths.len() - at,
    {
        proof {
            assert(all.skip(at as int)[0] == paths@[at as int]@);
            assert(all.skip(at as int).skip(1) == all.skip(at as int + 1));
        }
        let path = normalize_entry_path(paths[at].as_str())?;
        let key = normalized_sort_key(path.as_str());
        match met.find(key.as_str()) {
            Some(place) => {
                return Err(
                    PakError::DuplicatePath { first: met.items[place].1.clone(), second: path },
                );
            },
            None => {},
        }
        match PackageComponent::from_path(path.as_str()) {
            Some((component, base)) => add_component(&mut packages, base, component, path.clone()),
            None => loose.insert(key.clone(), path.clone()),
        }
        met.insert(key, path);
        at += 1;
    }
    Ok(PackageGrouping { packages: take_groups(packages), loose_entries: take_values(loose) })
}

/// Adds the rest of the paths under their keys.
pub open spec fn keyed_from(met: Seq<(Seq<char>, Seq<char>)>, rest: Seq<Seq<char>>) -> std::result::Result<
    Seq<(Seq<char>, Seq<char>)>,
    PakErrorView,
>
    decreases rest.len(),
{
    if rest.len() == 0 {
        Ok(met)
    } else {
        match normal_path(rest[0]) {
            Err(error) => Err(error),
            Ok(path) => match get(met, sort_key_of(path)) {
                Some(first) => Err(PakErrorView::DuplicatePath { first, second: path }),
                None => keyed_from(put(met, sort_key_of(path), path), rest.skip(1)),
            },
        }
    }
}

/// The paths under their keys; one that is invalid, or occurs twice, letter
/// case aside, is refused.
pub open spec fn keyed(paths: Seq<Seq<char>>) -> std::result::Result<
    Seq<(Seq<char>, Seq<char>)>,
    PakErrorView,
> {
    keyed_from(Seq::empty(), paths)
}

pub fn sort_and_validate_selected_paths(paths: &Vec<String>) -> (result: Result<OrderedMap<String>>)
    ensures
        seen(result) == keyed(texts(paths@)),
        result matches Ok(map) ==> map.well_formed(),
{
    let mut selected: OrderedMap<String> = OrderedMap::new();
    let mut at: usize = 0;
    let ghost all = texts(paths@);
    proof {
        assert(all.skip(0) == all);
    }
    while at < paths.len()
        invariant
            at <= paths@.len(),
            all == texts(paths@),
            selected.well_formed(),
            keyed(all) == keyed_from(selected@, all.skip(at as int)),
        decreases paths.len() - at,
    {
        proof {
            assert(all.skip(at as int)[0] == paths@[at as int]@);
            assert(all.skip(at as int).skip(1) == all.skip(at as int + 1));
        }
        let path = normalize_entry_path(paths[at].as_str())?;
        let key = normalized_sort_key(path.as_str());
        match selected.find(key.as_str()) {
            Some(place) => {
                return Err(
                    PakError::DuplicatePath { first: selected.items[place].1.clone(), second: path },
                );
            },
            None => {},
        }
        selected.insert(key, path);
        at += 1;
    }
    Ok(selected)
}

/// The paths of an output, of which there is at least one.
pub open spec fn keyed_output(paths: Seq<Seq<char>>) -> std::result::Result<
    Seq<(Seq<char>, Seq<char>)>,
    PakErrorView,
> {
    match keyed(paths) {
        Err(error) => Err(error),
        Ok(map) => if map.len() == 0 {
            Err(PakErrorView::EmptyArchive)
        } else {
            Ok(map)
        },
    }
}

pub fn sort_and_validate_paths(paths: &Vec<String>) -> (result: Result<OrderedMap<String>>)
    ensures
        seen(result) == keyed_output(texts(paths@)),
        result matches Ok(map) ==> map.well_formed(),
{
    let sorted = sort_and_validate_selected_paths(paths)?;
    if sorted.items.len() == 0 {
        return Err(PakError::EmptyArchive);
    }
    Ok(sorted)
}

} // verus!
