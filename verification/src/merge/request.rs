//! What a job is asked to do: its inputs and the place of its output.
use vstd::prelude::*;

use super::error::{invalid_request, seen, MergeError, MergeErrorView, Outcome, Result};
use super::ids::{folded, same_path, sort_key};
use super::types::{
    AnalysisRequest, AnalysisRequestView, MAX_SUPPORTED_PAKS, MAX_SUPPORTED_TOTAL_BYTES,
};
use crate::lists::views;
use crate::ordered::{get, put, OrderedMap};
use crate::text::{
    ascii_lowercase, cat2, cat4, dec, decimal, decimal_usize, ends_with, same_but_case, same_text, text_ends_with,
    text_view, texts, to_ascii_lowercase,
};

verus! {

/// The last part of a path and its extension, as the operating system splits it.
#[derive(Debug, Clone, PartialEq, Eq)]
pub struct PathName {
    pub file_name: Option<String>,
    pub extension: Option<String>,
}

#[verifier::ext_equal]
pub struct PathNameView {
    pub file_name: Option<Seq<char>>,
    pub extension: Option<Seq<char>>,
}

impl View for PathName {
    type V = PathNameView;

    open spec fn view(&self) -> PathNameView {
        PathNameView {
            file_name: text_view(self.file_name),
            extension: text_view(self.extension),
        }
    }
}

/// Whether a path has the extension of a Pak, letter case aside.
pub open spec fn names_a_pak(name: PathNameView) -> bool {
    name.extension matches Some(extension) && ascii_lowercase(extension) == "pak"@
}

fn has_pak_extension(name: &PathName) -> (result: bool)
    ensures
        result == names_a_pak(name@),
{
    match &name.extension {
        Some(extension) => same_text(to_ascii_lowercase(extension.as_str()).as_str(), "pak"),
        None => false,
    }
}

/// What speaks against a list of inputs: another extension, or the same path
/// twice.
pub open spec fn inputs_fault_from(
    met: Seq<(Seq<char>, bool)>,
    paths: Seq<Seq<char>>,
    names: Seq<PathNameView>,
    at: int,
) -> Option<Seq<char>>
    decreases paths.len() - at,
{
    if at >= paths.len() {
        None
    } else if !names_a_pak(names[at]) {
        Some("Pak input must use .pak: "@ + paths[at])
    } else if get(met, folded(paths[at])) is Some {
        Some("duplicate Pak input: "@ + paths[at])
    } else {
        inputs_fault_from(put(met, folded(paths[at]), true), paths, names, at + 1)
    }
}

/// The first input that is the base Pak.
pub open spec fn carrier_at(paths: Seq<Seq<char>>, carrier: Seq<char>) -> Option<int>
    decreases paths.len(),
{
    if paths.len() == 0 {
        None
    } else if same_but_case(paths[0], carrier) {
        Some(0int)
    } else {
        match carrier_at(paths.skip(1), carrier) {
            Some(at) => Some(at + 1),
            None => None,
        }
    }
}

/// Where the base Pak stands among the inputs.
pub fn find_carrier(paths: &Vec<String>, carrier: &str) -> (result: Option<usize>)
    ensures
        match (result, carrier_at(texts(paths@), carrier@)) {
            (Some(at), Some(wanted)) => at == wanted && at < paths@.len(),
            (None, None) => true,
            _ => false,
        },
{
    let ghost all = texts(paths@);
    let mut at: usize = 0;
    assert(all.skip(0) =~= all);
    while at < paths.len()
        invariant
            at <= paths@.len(),
            all == texts(paths@),
            match (carrier_at(all, carrier@), carrier_at(all.skip(at as int), carrier@)) {
                (Some(whole), Some(rest)) => whole == rest + at,
                (None, None) => true,
                _ => false,
            },
        decreases paths.len() - at,
    {
        proof {
            assert(all.skip(at as int)[0] == paths@[at as int]@);
            assert(all.skip(at as int).skip(1) =~= all.skip(at as int + 1));
        }
        if same_path(paths[at].as_str(), carrier) {
            return Some(at);
        }
        at += 1;
    }
    None
}

/// What a request must be before any file is opened.
pub open spec fn request_shape(request: AnalysisRequestView, names: Seq<PathNameView>) -> Outcome<()> {
    let paths = request.pak_paths;
    if paths.len() == 0 {
        invalid_request("at least one Pak input is required"@)
    } else if paths.len() > MAX_SUPPORTED_PAKS {
        invalid_request(
            dec(paths.len()) + " Pak inputs exceed the supported limit of "@ + dec(
                MAX_SUPPORTED_PAKS as nat,
            ),
        )
    } else {
        match inputs_fault_from(Seq::empty(), paths, names, 0) {
            Some(text) => invalid_request(text),
            None => if carrier_at(paths, request.carrier_path) is None {
                invalid_request("The base Pak is not in the selected Pak list."@)
            } else {
                Ok(())
            },
        }
    }
}

/// Checks a request before any file is opened.
pub fn validate_request_shape(request: &AnalysisRequest, names: &Vec<PathName>) -> (result: Result<()>)
    requires
        names@.len() == request.pak_paths@.len(),
    ensures
        seen(result) == request_shape(request@, views(names@)),
{
    let count: usize = request.pak_paths.len();
    assert(texts(request.pak_paths@).len() == count);
    if count == 0 {
        return Err(MergeError::InvalidRequest("at least one Pak input is required".to_owned()));
    }
    if count > MAX_SUPPORTED_PAKS {
        return Err(
            MergeError::InvalidRequest(
                crate::text::cat3(
                    decimal_usize(count).as_str(),
                    " Pak inputs exceed the supported limit of ",
                    decimal_usize(MAX_SUPPORTED_PAKS).as_str(),
                ),
            ),
        );
    }
    let ghost paths = texts(request.pak_paths@);
    let ghost seen_names = views(names@);
    let mut met: OrderedMap<bool> = OrderedMap::new();
    let mut at: usize = 0;
    while at < count
        invariant
            at <= count == request.pak_paths@.len() == names@.len(),
            0 < count <= MAX_SUPPORTED_PAKS,
            paths == texts(request.pak_paths@),
            paths == request@.pak_paths,
            seen_names == views(names@),
            met.well_formed(),
            inputs_fault_from(Seq::empty(), paths, seen_names, 0) == inputs_fault_from(
                met@,
                paths,
                seen_names,
                at as int,
            ),
        decreases count - at,
    {
        let path = request.pak_paths[at].as_str();
        proof {
            assert(paths[at as int] == path@);
            assert(seen_names[at as int] == names@[at as int]@);
        }
        if !has_pak_extension(&names[at]) {
            return Err(MergeError::InvalidRequest(cat2("Pak input must use .pak: ", path)));
        }
        let key = sort_key(path);
        if met.find(key.as_str()).is_some() {
            return Err(MergeError::InvalidRequest(cat2("duplicate Pak input: ", path)));
        }
        met.insert(key, true);
        at += 1;
    }
    if find_carrier(&request.pak_paths, request.carrier_path.as_str()).is_none() {
        return Err(
            MergeError::InvalidRequest("The base Pak is not in the selected Pak list.".to_owned()),
        );
    }
    Ok(())
}

/// The size of a file, or the message of the failed file operation.
pub type FileSize = std::result::Result<u64, String>;

pub open spec fn size_view(size: FileSize) -> std::result::Result<u64, Seq<char>> {
    match size {
        Ok(size) => Ok(size),
        Err(text) => Err(text@),
    }
}

pub open spec fn size_views(sizes: Seq<FileSize>) -> Seq<std::result::Result<u64, Seq<char>>> {
    sizes.map_values(|size: FileSize| size_view(size))
}

/// The bytes of the inputs together.
pub open spec fn input_total_from(total: int, sizes: Seq<std::result::Result<u64, Seq<char>>>) -> Outcome<
    int,
>
    decreases sizes.len(),
{
    if sizes.len() == 0 {
        Ok(total)
    } else {
        match sizes[0] {
            Err(text) => Err(MergeErrorView::Io(text)),
            Ok(size) => if total + size > u64::MAX {
                invalid_request("input size overflow"@)
            } else {
                input_total_from(total + size, sizes.skip(1))
            },
        }
    }
}

/// The inputs together are not too large.
pub open spec fn total_allowed(total: int) -> Outcome<()> {
    if total > MAX_SUPPORTED_TOTAL_BYTES {
        invalid_request(
            "input total "@ + dec(total as nat) + " exceeds the supported limit of "@ + dec(
                MAX_SUPPORTED_TOTAL_BYTES as nat,
            ) + " bytes"@,
        )
    } else {
        Ok(())
    }
}

pub fn validate_total_input_size(total: u64) -> (result: Result<()>)
    ensures
        seen(result) == total_allowed(total as int),
{
    if total > MAX_SUPPORTED_TOTAL_BYTES {
        return Err(
            MergeError::InvalidRequest(
                crate::text::cat5(
                    "input total ",
                    decimal(total).as_str(),
                    " exceeds the supported limit of ",
                    decimal(MAX_SUPPORTED_TOTAL_BYTES).as_str(),
                    " bytes",
                ),
            ),
        );
    }
    Ok(())
}

/// The sizes are known, add up, and stay within the limit.
pub open spec fn sizes_allowed(sizes: Seq<std::result::Result<u64, Seq<char>>>) -> Outcome<()> {
    match input_total_from(0, sizes) {
        Err(error) => Err(error),
        Ok(total) => total_allowed(total),
    }
}

fn check_sizes(sizes: &Vec<FileSize>) -> (result: Result<()>)
    ensures
        seen(result) == sizes_allowed(size_views(sizes@)),
{
    let ghost all = size_views(sizes@);
    let mut total: u64 = 0;
    let mut at: usize = 0;
    assert(all.skip(0) =~= all);
    while at < sizes.len()
        invariant
            at <= sizes@.len(),
            all == size_views(sizes@),
            input_total_from(0, all) == input_total_from(total as int, all.skip(at as int)),
        decreases sizes.len() - at,
    {
        proof {
            assert(all.skip(at as int)[0] == size_view(sizes@[at as int]));
            assert(all.skip(at as int).skip(1) =~= all.skip(at as int + 1));
        }
        match &sizes[at] {
            Err(text) => {
                return Err(MergeError::Io(text.clone()));
            },
            Ok(size) => match total.checked_add(*size) {
                Some(sum) => {
                    total = sum;
                },
                None => {
                    return Err(MergeError::InvalidRequest("input size overflow".to_owned()));
                },
            },
        }
        at += 1;
    }
    validate_total_input_size(total)
}

/// What a request must be, given the sizes of its files.
pub open spec fn request_allowed(
    request: AnalysisRequestView,
    names: Seq<PathNameView>,
    sizes: Seq<std::result::Result<u64, Seq<char>>>,
) -> Outcome<()> {
    match request_shape(request, names) {
        Err(error) => Err(error),
        Ok(_) => sizes_allowed(sizes),
    }
}

/// Checks a request against the sizes of its files.
pub fn validate_request(request: &AnalysisRequest, names: &Vec<PathName>, sizes: &Vec<FileSize>) -> (result:
    Result<()>)
    requires
        names@.len() == request.pak_paths@.len(),
    ensures
        seen(result) == request_allowed(request@, views(names@), size_views(sizes@)),
{
    validate_request_shape(request, names)?;
    check_sizes(sizes)
}

/// What a request must be for archives that are already open.
pub open spec fn cached_request_allowed(
    request: AnalysisRequestView,
    names: Seq<PathNameView>,
    sizes: Seq<std::result::Result<u64, Seq<char>>>,
) -> Outcome<()> {
    match request_shape(request, names) {
        Err(error) => Err(error),
        Ok(_) => if sizes.len() != request.pak_paths.len() {
            invalid_request(
                "the inspection cache contains "@ + dec(sizes.len())
                    + " Pak files, but the request contains "@ + dec(request.pak_paths.len()),
            )
        } else {
            sizes_allowed(sizes)
        },
    }
}

/// Checks a request for archives that are already open.
pub fn validate_cached_request(
    request: &AnalysisRequest,
    names: &Vec<PathName>,
    archive_sizes: &Vec<FileSize>,
) -> (result: Result<()>)
    requires
        names@.len() == request.pak_paths@.len(),
    ensures
        seen(result) == cached_request_allowed(
            request@,
            views(names@),
            size_views(archive_sizes@),
        ),
{
    validate_request_shape(request, names)?;
    assert(texts(request.pak_paths@).len() == request.pak_paths@.len());
    assert(size_views(archive_sizes@).len() == archive_sizes@.len());
    if archive_sizes.len() != request.pak_paths.len() {
        return Err(
            MergeError::InvalidRequest(
                cat4(
                    "the inspection cache contains ",
                    decimal_usize(archive_sizes.len()).as_str(),
                    " Pak files, but the request contains ",
                    decimal_usize(request.pak_paths.len()).as_str(),
                ),
            ),
        );
    }
    check_sizes(archive_sizes)
}

/// Where an output may be written: to a file whose name ends with `_P.pak`.
pub open spec fn output_path_allowed(name: PathNameView) -> Outcome<()> {
    if !names_a_pak(name) {
        invalid_request("output must use the .pak extension"@)
    } else if name.file_name matches Some(file) && !ends_with(ascii_lowercase(file), "_p.pak"@) {
        invalid_request("output file name must end with _P.pak"@)
    } else {
        Ok(())
    }
}

pub fn require_output_path(name: &PathName) -> (result: Result<()>)
    ensures
        seen(result) == output_path_allowed(name@),
{
    if !has_pak_extension(name) {
        return Err(MergeError::InvalidRequest("output must use the .pak extension".to_owned()));
    }
    match &name.file_name {
        Some(file) => {
            if !text_ends_with(to_ascii_lowercase(file.as_str()).as_str(), "_p.pak") {
                return Err(
                    MergeError::InvalidRequest("output file name must end with _P.pak".to_owned()),
                );
            }
        },
        None => {},
    }
    Ok(())
}

/// What tells one state of a file from another. The time is in nanoseconds from
/// the Unix epoch.
#[derive(Debug, Clone, Copy, PartialEq, Eq, Structural)]
pub struct OutputTargetStamp {
    pub len: u64,
    pub modified: Option<i128>,
    pub readonly: bool,
}

/// What stands at the output path.
#[derive(Debug)]
pub enum OutputTarget {
    Absent,
    File(OutputTargetStamp),
    /// A link, a folder or another thing that is no regular file.
    NotRegular,
    /// The message of the failed file operation.
    Unreadable(String),
}

#[verifier::ext_equal]
pub enum OutputTargetView {
    Absent,
    File(OutputTargetStamp),
    NotRegular,
    Unreadable(Seq<char>),
}

impl View for OutputTarget {
    type V = OutputTargetView;

    open spec fn view(&self) -> OutputTargetView {
        match *self {
            OutputTarget::Absent => OutputTargetView::Absent,
            OutputTarget::File(stamp) => OutputTargetView::File(stamp),
            OutputTarget::NotRegular => OutputTargetView::NotRegular,
            OutputTarget::Unreadable(text) => OutputTargetView::Unreadable(text@),
        }
    }
}

/// The state of the file that an output replaces.
pub open spec fn captured_target(
    path: Seq<char>,
    target: OutputTargetView,
    overwrite_existing: bool,
) -> Outcome<Option<OutputTargetStamp>> {
    match target {
        OutputTargetView::Absent => Ok(None),
        OutputTargetView::Unreadable(text) => Err(MergeErrorView::Io(text)),
        OutputTargetView::File(stamp) => if overwrite_existing {
            Ok(Some(stamp))
        } else {
            invalid_request("output already exists: "@ + path)
        },
        OutputTargetView::NotRegular => if overwrite_existing {
            invalid_request(
                "the existing output is not a regular file and cannot be replaced: "@ + path,
            )
        } else {
            invalid_request("output already exists: "@ + path)
        },
    }
}

pub fn capture_output_target(path: &str, target: &OutputTarget, overwrite_existing: bool) -> (result:
    Result<Option<OutputTargetStamp>>)
    ensures
        match (result, captured_target(path@, target@, overwrite_existing)) {
            (Ok(stamp), Ok(wanted)) => stamp == wanted,
            (Err(error), Err(wanted)) => error@ == wanted,
            _ => false,
        },
{
    match target {
        OutputTarget::Absent => Ok(None),
        OutputTarget::Unreadable(text) => Err(MergeError::Io(text.clone())),
        OutputTarget::File(stamp) => if overwrite_existing {
            Ok(Some(*stamp))
        } else {
            Err(MergeError::InvalidRequest(cat2("output already exists: ", path)))
        },
        OutputTarget::NotRegular => if overwrite_existing {
            Err(
                MergeError::InvalidRequest(
                    cat2(
                        "the existing output is not a regular file and cannot be replaced: ",
                        path,
                    ),
                ),
            )
        } else {
            Err(MergeError::InvalidRequest(cat2("output already exists: ", path)))
        },
    }
}

/// Whatever stands at the output path stays unless it may be replaced, and even
/// then only a regular file is replaced.
pub proof fn existing_outputs_stay_unless_allowed(
    path: Seq<char>,
    target: OutputTargetView,
    overwrite_existing: bool,
)
    ensures
        captured_target(path, target, overwrite_existing) matches Ok(stamp) ==> (target
            == OutputTargetView::Absent && stamp is None) || (overwrite_existing && stamp is Some
            && target == OutputTargetView::File(stamp->0)),
{
}

/// The output path is as it was when the merge began.
pub open spec fn target_unchanged(
    path: Seq<char>,
    target: OutputTargetView,
    expected: Option<OutputTargetStamp>,
) -> Outcome<()> {
    match target {
        OutputTargetView::NotRegular => invalid_request(
            "the output path changed while the Pak was being built: "@ + path,
        ),
        OutputTargetView::Unreadable(text) => Err(MergeErrorView::Io(text)),
        OutputTargetView::Absent => if expected is None {
            Ok(())
        } else {
            invalid_request(
                "the output path changed while the Pak was being built; no file was replaced: "@
                    + path,
            )
        },
        OutputTargetView::File(stamp) => if expected == Some(stamp) {
            Ok(())
        } else {
            invalid_request(
                "the output path changed while the Pak was being built; no file was replaced: "@
                    + path,
            )
        },
    }
}

pub fn ensure_output_target_unchanged(
    path: &str,
    target: &OutputTarget,
    expected: Option<OutputTargetStamp>,
) -> (result: Result<()>)
    ensures
        seen(result) == target_unchanged(path@, target@, expected),
{
    let unchanged = match target {
        OutputTarget::NotRegular => {
            return Err(
                MergeError::InvalidRequest(
                    cat2("the output path changed while the Pak was being built: ", path),
                ),
            );
        },
        OutputTarget::Unreadable(text) => {
            return Err(MergeError::Io(text.clone()));
        },
        OutputTarget::Absent => expected.is_none(),
        OutputTarget::File(stamp) => match expected {
            Some(before) => before.len == stamp.len && before.readonly == stamp.readonly
                && same_time(before.modified, stamp.modified),
            None => false,
        },
    };
    if !unchanged {
        return Err(
            MergeError::InvalidRequest(
                cat2(
                    "the output path changed while the Pak was being built; no file was replaced: ",
                    path,
                ),
            ),
        );
    }
    Ok(())
}

/// Whether two times, which may be unknown, are the same.
pub fn same_time(left: Option<i128>, right: Option<i128>) -> (result: bool)
    ensures
        result == (left == right),
{
    match (left, right) {
        (Some(left), Some(right)) => left == right,
        (None, None) => true,
        _ => false,
    }
}

/// Whether two known volumes are the same one. An unknown volume is no match.
pub open spec fn same_volume(left: Option<Seq<char>>, right: Option<Seq<char>>) -> bool {
    left is Some && left == right
}

pub fn known_volume_identities_match(left: Option<String>, right: Option<String>) -> (result: bool)
    ensures
        result == same_volume(text_view(left), text_view(right)),
{
    match (left, right) {
        (Some(left), Some(right)) => same_text(left.as_str(), right.as_str()),
        _ => false,
    }
}

/// A copy of the output is the output.
pub open spec fn copy_matches(
    copied: u64,
    copied_sha256: Seq<char>,
    expected_size: u64,
    expected_sha256: Seq<char>,
) -> Outcome<()> {
    if copied != expected_size {
        Err(
            MergeErrorView::Verification(
                "the copied Pak size changed: expected "@ + dec(expected_size as nat)
                    + " bytes, copied "@ + dec(copied as nat) + " bytes"@,
            ),
        )
    } else if copied_sha256 != expected_sha256 {
        Err(
            MergeErrorView::Verification(
                "the copied Pak SHA-256 does not match: expected "@ + expected_sha256 + ", got "@
                    + copied_sha256,
            ),
        )
    } else {
        Ok(())
    }
}

/// Checks a copy of the output by its size and digest.
pub fn check_copied_output(
    copied: u64,
    copied_sha256: &str,
    expected_size: u64,
    expected_sha256: &str,
) -> (result: Result<()>)
    ensures
        seen(result) == copy_matches(copied, copied_sha256@, expected_size, expected_sha256@),
{
    if copied != expected_size {
        return Err(
            MergeError::Verification(
                crate::text::cat5(
                    "the copied Pak size changed: expected ",
                    decimal(expected_size).as_str(),
                    " bytes, copied ",
                    decimal(copied).as_str(),
                    " bytes",
                ),
            ),
        );
    }
    if !same_text(copied_sha256, expected_sha256) {
        return Err(
            MergeError::Verification(
                cat4(
                    "the copied Pak SHA-256 does not match: expected ",
                    expected_sha256,
                    ", got ",
                    copied_sha256,
                ),
            ),
        );
    }
    Ok(())
}

} // verus!
