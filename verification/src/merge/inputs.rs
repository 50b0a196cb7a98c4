//! Which requests and inputs are accepted, and when inputs hold the same files.
use vstd::prelude::*;

use super::error::Outcome;
use super::ids::folded;
use super::opened::{
    archive_current, changed_input, described, mistaken_input, opened_by_path_from,
    opened_in_order_from, opened_input, picked, twin_of, FileStamp, InputArchiveView,
    OpenedPakView,
};
use super::providers::{
    canonical_digest, group_digest_of, groups_identical, groups_match_from, loose_match_from,
    loose_same, GroupProviderView, LooseProviderView,
};
use super::request::{
    carrier_at, input_total_from, inputs_fault_from, names_a_pak, request_shape, sizes_allowed,
    PathNameView,
};
use super::types::{
    AnalysisRequestView, InputDescriptorView, MAX_SUPPORTED_PAKS, MAX_SUPPORTED_TOTAL_BYTES,
};
use crate::ordered::{ascending, get, put, put_keeps_order, put_then_get};
use crate::text::same_but_case;

verus! {

/// All providers of a package hold it with this digest.
pub open spec fn all_packages_have(
    opened: Seq<OpenedPakView>,
    providers: Seq<GroupProviderView>,
    digest: Seq<char>,
) -> bool {
    forall|i: int|
        0 <= i < providers.len() ==> group_digest_of(
            opened[(#[trigger] providers[i]).input_index as int],
            providers[i].group,
        ) == Outcome::<Seq<char>>::Ok(digest)
}

proof fn matching_packages(
    opened: Seq<OpenedPakView>,
    providers: Seq<GroupProviderView>,
    at: int,
    digest: Seq<char>,
)
    requires
        0 <= at,
    ensures
        groups_match_from(opened, providers, at, digest) == Outcome::<bool>::Ok(true) <==> forall|
            i: int,
        |
            at <= i < providers.len() ==> group_digest_of(
                opened[(#[trigger] providers[i]).input_index as int],
                providers[i].group,
            ) == Outcome::<Seq<char>>::Ok(digest),
    decreases providers.len() - at,
{
    if at < providers.len() {
        matching_packages(opened, providers, at + 1, digest);
        assert(providers[at] == providers[at]);
    }
}

/// The providers of a package hold it alike exactly when all of them hold it with one
/// digest.
pub proof fn packages_are_alike_when_all_digests_agree(
    opened: Seq<OpenedPakView>,
    providers: Seq<GroupProviderView>,
)
    requires
        providers.len() > 0,
    ensures
        groups_identical(opened, providers) == Outcome::<bool>::Ok(true) <==> exists|
            digest: Seq<char>,
        | #[trigger]
            all_packages_have(opened, providers, digest),
{
    let first = group_digest_of(opened[providers[0].input_index as int], providers[0].group);
    if let Ok(digest) = first {
        matching_packages(opened, providers, 1, digest);
        if groups_identical(opened, providers) == Outcome::<bool>::Ok(true) {
            assert(all_packages_have(opened, providers, digest));
        }
    }
    if exists|digest: Seq<char>| #[trigger] all_packages_have(opened, providers, digest) {
        let digest = choose|digest: Seq<char>| #[trigger]
            all_packages_have(opened, providers, digest);
        assert(providers[0] == providers[0]);
        assert(first == Outcome::<Seq<char>>::Ok(digest));
    }
}

/// All providers of a file hold it with this digest.
pub open spec fn all_files_have(
    opened: Seq<OpenedPakView>,
    providers: Seq<LooseProviderView>,
    digest: Seq<char>,
) -> bool {
    forall|i: int|
        0 <= i < providers.len() ==> canonical_digest(
            opened[(#[trigger] providers[i]).input_index as int],
            providers[i].path,
        ) == Outcome::<Seq<char>>::Ok(digest)
}

proof fn matching_files(
    opened: Seq<OpenedPakView>,
    providers: Seq<LooseProviderView>,
    at: int,
    digest: Seq<char>,
)
    requires
        0 <= at,
    ensures
        loose_match_from(opened, providers, at, digest) == Outcome::<bool>::Ok(true) <==> forall|
            i: int,
        |
            at <= i < providers.len() ==> canonical_digest(
                opened[(#[trigger] providers[i]).input_index as int],
                providers[i].path,
            ) == Outcome::<Seq<char>>::Ok(digest),
    decreases providers.len() - at,
{
    if at < providers.len() {
        matching_files(opened, providers, at + 1, digest);
        assert(providers[at] == providers[at]);
    }
}

/// The providers of a file hold it alike exactly when all of them hold it with one
/// digest.
pub proof fn files_are_alike_when_all_digests_agree(
    opened: Seq<OpenedPakView>,
    providers: Seq<LooseProviderView>,
)
    requires
        providers.len() > 0,
    ensures
        loose_same(opened, providers) == Outcome::<bool>::Ok(true) <==> exists|digest: Seq<char>|
            #[trigger] all_files_have(opened, providers, digest),
{
    let first = canonical_digest(opened[providers[0].input_index as int], providers[0].path);
    if let Ok(digest) = first {
        matching_files(opened, providers, 1, digest);
        if loose_same(opened, providers) == Outcome::<bool>::Ok(true) {
            assert(all_files_have(opened, providers, digest));
        }
    }
    if exists|digest: Seq<char>| #[trigger] all_files_have(opened, providers, digest) {
        let digest = choose|digest: Seq<char>| #[trigger]
            all_files_have(opened, providers, digest);
        assert(providers[0] == providers[0]);
        assert(first == Outcome::<Seq<char>>::Ok(digest));
    }
}

/// No two inputs hold the same archive.
pub open spec fn archives_differ(opened: Seq<OpenedPakView>) -> bool {
    forall|i: int, j: int|
        0 <= i < j < opened.len() ==> (#[trigger] opened[i]).descriptor.sha256 != (
        #[trigger] opened[j]).descriptor.sha256
}

proof fn twins_are_found(opened: Seq<OpenedPakView>, sha256: Seq<char>)
    ensures
        twin_of(opened, sha256) is None <==> forall|i: int|
            0 <= i < opened.len() ==> (#[trigger] opened[i]).descriptor.sha256 != sha256,
    decreases opened.len(),
{
    if opened.len() > 0 {
        let rest = opened.skip(1);
        twins_are_found(rest, sha256);
        if opened[0].descriptor.sha256 != sha256 {
            assert forall|i: int| 0 < i < opened.len() implies rest[i - 1]
                == #[trigger] opened[i] by {}
            if twin_of(opened, sha256) is None {
                assert forall|i: int| 0 <= i < opened.len() implies (
                #[trigger] opened[i]).descriptor.sha256 != sha256 by {
                    if i > 0 {
                        assert(rest[i - 1] == opened[i]);
                    }
                }
            } else {
                let k = choose|k: int|
                    0 <= k < rest.len() && (#[trigger] rest[k]).descriptor.sha256 == sha256;
                assert(opened[k + 1] == rest[k]);
            }
        }
    }
}

/// An input is this archive under this path.
pub open spec fn is_input(input: OpenedPakView, path: Seq<char>, archive: InputArchiveView) -> bool {
    &&& input.descriptor.path == path
    &&& input.descriptor.sha256 == archive.archive.inventory.archive_sha256
    &&& input.descriptor.id == "pak-"@ + archive.archive.inventory.archive_sha256
    &&& input.descriptor.size == archive.archive.inventory.archive_size
    &&& input.archive == archive.archive
    &&& input.source_modified == archive.source_modified
}

/// The inputs of a request are its archives in the order of its paths, and no two of
/// them are the same.
pub proof fn inputs_are_opened_in_order(
    done: Seq<OpenedPakView>,
    paths: Seq<Seq<char>>,
    names: Seq<PathNameView>,
    archives: Seq<InputArchiveView>,
)
    requires
        archives_differ(done),
        archives.len() == paths.len(),
    ensures
        opened_in_order_from(done, paths, names, archives) matches Ok(opened) ==> {
            &&& opened.len() == done.len() + paths.len()
            &&& archives_differ(opened)
            &&& opened.take(done.len() as int) == done
            &&& forall|i: int|
                0 <= i < paths.len() ==> is_input(
                    opened[done.len() + i],
                    #[trigger] paths[i],
                    archives[i],
                )
        },
    decreases paths.len(),
{
    if paths.len() == 0 {
        assert(done.take(done.len() as int) =~= done);
    } else {
        let sha256 = archives[0].archive.inventory.archive_sha256;
        twins_are_found(done, sha256);
        if twin_of(done, sha256) is None {
            let item = opened_input(paths[0], names[0].file_name, archives[0]);
            let more = done.push(item);
            assert forall|i: int, j: int| 0 <= i < j < more.len() implies (
            #[trigger] more[i]).descriptor.sha256 != (#[trigger] more[j]).descriptor.sha256 by {
                assert(more[i] == done[i]);
                if j < done.len() {
                    assert(more[j] == done[j]);
                }
            }
            let rest = paths.skip(1);
            inputs_are_opened_in_order(more, rest, names.skip(1), archives.skip(1));
            if let Ok(opened) = opened_in_order_from(more, rest, names.skip(1), archives.skip(1)) {
                assert(opened.take(more.len() as int).take(done.len() as int) =~= opened.take(
                    done.len() as int,
                ));
                assert(more.take(done.len() as int) =~= done);
                assert forall|i: int| 0 <= i < paths.len() implies is_input(
                    opened[done.len() + i],
                    #[trigger] paths[i],
                    archives[i],
                ) by {
                    if i == 0 {
                        assert(opened.take(more.len() as int)[done.len() as int] == item);
                    } else {
                        assert(rest[i - 1] == paths[i]);
                    }
                }
            }
        }
    }
}

/// A list has an archive that is current and lies under a path.
pub open spec fn has_current(
    archives: Seq<InputArchiveView>,
    path: Seq<char>,
    input: OpenedPakView,
) -> bool {
    exists|a: int|
        0 <= a < archives.len() && is_input(input, path, #[trigger] archives[a]) && archive_current(
            path,
            archives[a].archive.inventory.source_path,
            archives[a].archive.inventory.archive_size,
            archives[a].source_modified,
            archives[a].stamp,
        )
}

proof fn picked_is_there(archives: Seq<InputArchiveView>, key: Seq<char>)
    ensures
        picked(archives, key) matches Some(at) ==> 0 <= at < archives.len(),
    decreases archives.len(),
{
    if archives.len() > 0 {
        picked_is_there(archives.skip(1), key);
    }
}

/// Archives that were opened before stand in the order of the paths, each of them
/// current and none of them twice.
pub proof fn kept_inputs_are_opened_by_path(
    done: Seq<OpenedPakView>,
    paths: Seq<Seq<char>>,
    names: Seq<PathNameView>,
    archives: Seq<InputArchiveView>,
)
    requires
        archives_differ(done),
    ensures
        opened_by_path_from(done, paths, names, archives) matches Ok(opened) ==> {
            &&& archives.len() == paths.len()
            &&& opened.len() == done.len() + paths.len()
            &&& archives_differ(opened)
            &&& opened.take(done.len() as int) == done
            &&& forall|i: int|
                0 <= i < paths.len() ==> has_current(
                    archives,
                    #[trigger] paths[i],
                    opened[done.len() + i],
                )
        },
    decreases paths.len(),
{
    if paths.len() == 0 {
        assert(done.take(done.len() as int) =~= done);
    } else if opened_by_path_from(done, paths, names, archives) is Ok {
        picked_is_there(archives, folded(paths[0]));
        let at = picked(archives, folded(paths[0]))->0;
        let input = archives[at];
        let sha256 = input.archive.inventory.archive_sha256;
        twins_are_found(done, sha256);
        let item = opened_input(paths[0], names[0].file_name, input);
        let more = done.push(item);
        assert forall|i: int, j: int| 0 <= i < j < more.len() implies (
        #[trigger] more[i]).descriptor.sha256 != (#[trigger] more[j]).descriptor.sha256 by {
            assert(more[i] == done[i]);
            if j < done.len() {
                assert(more[j] == done[j]);
            }
        }
        let rest = paths.skip(1);
        let left = archives.remove(at);
        kept_inputs_are_opened_by_path(more, rest, names.skip(1), left);
        let opened = opened_by_path_from(more, rest, names.skip(1), left)->Ok_0;
        assert(opened.take(more.len() as int).take(done.len() as int) =~= opened.take(
            done.len() as int,
        ));
        assert(more.take(done.len() as int) =~= done);
        assert forall|i: int| 0 <= i < paths.len() implies has_current(
            archives,
            #[trigger] paths[i],
            opened[done.len() + i],
        ) by {
            if i == 0 {
                assert(opened.take(more.len() as int)[done.len() as int] == item);
                assert(is_input(item, paths[0], archives[at]));
            } else {
                assert(rest[i - 1] == paths[i]);
                let a = choose|a: int|
                    0 <= a < left.len() && is_input(
                        opened[done.len() + i],
                        paths[i],
                        #[trigger] left[a],
                    ) && archive_current(
                        paths[i],
                        left[a].archive.inventory.source_path,
                        left[a].archive.inventory.archive_size,
                        left[a].source_modified,
                        left[a].stamp,
                    );
                let b = if a < at {
                    a
                } else {
                    a + 1
                };
                assert(archives[b] == left[a]);
            }
        }
    }
}

/// The file of an input is as it was when it was opened.
pub open spec fn is_unchanged(input: OpenedPakView, stamp: Option<FileStamp>) -> bool {
    archive_current(
        input.descriptor.path,
        input.archive.inventory.source_path,
        input.archive.inventory.archive_size,
        input.source_modified,
        stamp,
    )
}

/// No changed input is told of exactly when the files of all inputs are as they were.
pub proof fn changed_inputs_are_noticed(
    opened: Seq<OpenedPakView>,
    stamps: Seq<Option<FileStamp>>,
)
    requires
        stamps.len() == opened.len(),
    ensures
        changed_input(opened, stamps) is None <==> forall|i: int|
            0 <= i < opened.len() ==> is_unchanged(#[trigger] opened[i], stamps[i]),
    decreases opened.len(),
{
    if opened.len() > 0 {
        let rest = opened.skip(1);
        let left = stamps.skip(1);
        changed_inputs_are_noticed(rest, left);
        assert forall|i: int| 0 < i < opened.len() implies is_unchanged(
            #[trigger] opened[i],
            stamps[i],
        ) == is_unchanged(rest[i - 1], left[i - 1]) by {}
        if changed_input(opened, stamps) is None {
            assert forall|i: int| 0 <= i < opened.len() implies is_unchanged(
                #[trigger] opened[i],
                stamps[i],
            ) by {
                if i > 0 {
                    assert(is_unchanged(rest[i - 1], left[i - 1]));
                }
            }
        } else if is_unchanged(opened[0], stamps[0]) {
            let k = choose|k: int|
                0 <= k < rest.len() && !is_unchanged(#[trigger] rest[k], left[k]);
            assert(!is_unchanged(opened[k + 1], stamps[k + 1]));
        }
    }
}

/// The first of the recorded inputs with the id of an input has its digest.
pub open spec fn is_the_recorded_one(
    input: OpenedPakView,
    inputs: Seq<InputDescriptorView>,
) -> bool {
    exists|k: int|
        0 <= k < inputs.len() && (#[trigger] inputs[k]).id == input.descriptor.id
            && inputs[k].sha256 == input.archive.inventory.archive_sha256 && forall|j: int|
            0 <= j < k ==> (#[trigger] inputs[j]).id != input.descriptor.id
}

proof fn recorded_digest_is_found(inputs: Seq<InputDescriptorView>, input: OpenedPakView)
    ensures
        is_the_recorded_one(input, inputs) <==> described(inputs, input.descriptor.id) == Some(
            input.archive.inventory.archive_sha256,
        ),
    decreases inputs.len(),
{
    if inputs.len() > 0 {
        let id = input.descriptor.id;
        let sha256 = input.archive.inventory.archive_sha256;
        let rest = inputs.skip(1);
        recorded_digest_is_found(rest, input);
        if inputs[0].id != id {
            if is_the_recorded_one(input, rest) {
                let k = choose|k: int|
                    0 <= k < rest.len() && (#[trigger] rest[k]).id == id && rest[k].sha256 == sha256
                        && forall|j: int| 0 <= j < k ==> (#[trigger] rest[j]).id != id;
                assert(inputs[k + 1] == rest[k]);
                assert forall|j: int| 0 <= j < k + 1 implies (#[trigger] inputs[j]).id != id by {
                    if j > 0 {
                        assert(rest[j - 1] == inputs[j]);
                    }
                }
            }
            if is_the_recorded_one(input, inputs) {
                let k = choose|k: int|
                    0 <= k < inputs.len() && (#[trigger] inputs[k]).id == id && inputs[k].sha256
                        == sha256 && forall|j: int| 0 <= j < k ==> (#[trigger] inputs[j]).id != id;
                assert(rest[k - 1] == inputs[k]);
                assert forall|j: int| 0 <= j < k - 1 implies (#[trigger] rest[j]).id != id by {
                    assert(inputs[j + 1] == rest[j]);
                }
            }
        } else {
            assert(inputs[0].id == id);
        }
    }
}

/// No mistaken input is told of exactly when every input is the one that was analyzed.
pub proof fn mistaken_inputs_are_noticed(
    opened: Seq<OpenedPakView>,
    inputs: Seq<InputDescriptorView>,
)
    ensures
        mistaken_input(opened, inputs) is None <==> forall|i: int|
            0 <= i < opened.len() ==> is_the_recorded_one(#[trigger] opened[i], inputs),
    decreases opened.len(),
{
    if opened.len() > 0 {
        let rest = opened.skip(1);
        recorded_digest_is_found(inputs, opened[0]);
        mistaken_inputs_are_noticed(rest, inputs);
        if mistaken_input(opened, inputs) is None {
            assert forall|i: int| 0 <= i < opened.len() implies is_the_recorded_one(
                #[trigger] opened[i],
                inputs,
            ) by {
                if i > 0 {
                    assert(rest[i - 1] == opened[i]);
                }
            }
        } else if is_the_recorded_one(opened[0], inputs) {
            let k = choose|k: int|
                0 <= k < rest.len() && !is_the_recorded_one(#[trigger] rest[k], inputs);
            assert(opened[k + 1] == rest[k]);
        }
    }
}

proof fn input_faults_are_found(
    met: Seq<(Seq<char>, bool)>,
    paths: Seq<Seq<char>>,
    names: Seq<PathNameView>,
    at: int,
)
    requires
        ascending(met),
        0 <= at <= paths.len(),
        forall|key: Seq<char>| #[trigger]
            get(met, key) is Some <==> exists|i: int|
                0 <= i < at && folded(#[trigger] paths[i]) == key,
    ensures
        inputs_fault_from(met, paths, names, at) is None <==> {
            &&& forall|i: int| at <= i < paths.len() ==> names_a_pak(#[trigger] names[i])
            &&& forall|i: int, j: int|
                0 <= i < j < paths.len() && at <= j ==> folded(#[trigger] paths[i]) != folded(
                    #[trigger] paths[j],
                )
        },
    decreases paths.len() - at,
{
    if at < paths.len() {
        let key = folded(paths[at]);
        let more = put(met, key, true);
        put_keeps_order(met, key, true);
        assert forall|other: Seq<char>| #[trigger] get(more, other) is Some <==> exists|i: int|
            0 <= i < at + 1 && folded(#[trigger] paths[i]) == other by {
            put_then_get(met, key, true, other);
            if other == key {
                assert(folded(paths[at]) == other);
            }
            if exists|i: int| 0 <= i < at && folded(#[trigger] paths[i]) == other {
                let i = choose|i: int| 0 <= i < at && folded(#[trigger] paths[i]) == other;
                assert(0 <= i < at + 1 && folded(paths[i]) == other);
            }
        }
        input_faults_are_found(more, paths, names, at + 1);
        assert(names[at] == names[at]);
        if get(met, key) is Some {
            let i = choose|i: int| 0 <= i < at && folded(#[trigger] paths[i]) == key;
            assert(folded(paths[i]) == folded(paths[at]));
        } else {
            assert forall|i: int| 0 <= i < at implies folded(#[trigger] paths[i]) != folded(
                paths[at],
            ) by {
                assert(!(folded(paths[i]) == key));
            }
        }
    }
}

proof fn carriers_are_found(paths: Seq<Seq<char>>, carrier: Seq<char>)
    ensures
        carrier_at(paths, carrier) is Some <==> exists|i: int|
            0 <= i < paths.len() && same_but_case(#[trigger] paths[i], carrier),
    decreases paths.len(),
{
    if paths.len() > 0 && !same_but_case(paths[0], carrier) {
        let rest = paths.skip(1);
        carriers_are_found(rest, carrier);
        if exists|i: int| 0 <= i < rest.len() && same_but_case(#[trigger] rest[i], carrier) {
            let i = choose|i: int| 0 <= i < rest.len() && same_but_case(#[trigger] rest[i], carrier);
            assert(paths[i + 1] == rest[i]);
        }
        if exists|i: int| 0 <= i < paths.len() && same_but_case(#[trigger] paths[i], carrier) {
            let i = choose|i: int|
                0 <= i < paths.len() && same_but_case(#[trigger] paths[i], carrier);
            assert(rest[i - 1] == paths[i]);
        }
    }
}

/// A request is accepted exactly when it names at least one Pak and not too many, each
/// by the extension of a Pak, none of them twice, and the base Pak among them.
pub proof fn requests_are_accepted_when_they_are_sound(
    request: AnalysisRequestView,
    names: Seq<PathNameView>,
)
    ensures
        request_shape(request, names) is Ok <==> {
            let paths = request.pak_paths;
            &&& 1 <= paths.len() <= MAX_SUPPORTED_PAKS
            &&& forall|i: int| 0 <= i < paths.len() ==> names_a_pak(#[trigger] names[i])
            &&& forall|i: int, j: int|
                0 <= i < j < paths.len() ==> folded(#[trigger] paths[i]) != folded(
                    #[trigger] paths[j],
                )
            &&& exists|i: int|
                0 <= i < paths.len() && same_but_case(#[trigger] paths[i], request.carrier_path)
        },
{
    input_faults_are_found(Seq::empty(), request.pak_paths, names, 0);
    carriers_are_found(request.pak_paths, request.carrier_path);
}

/// The sum of sizes that are known.
pub open spec fn sum_of_known(start: int, sizes: Seq<std::result::Result<u64, Seq<char>>>) -> int {
    sizes.fold_left(start, |sum: int, size: std::result::Result<u64, Seq<char>>| sum + size->Ok_0)
}

proof fn sums_start_with_the_first(
    start: int,
    sizes: Seq<std::result::Result<u64, Seq<char>>>,
)
    requires
        sizes.len() > 0,
    ensures
        sum_of_known(start, sizes) == sum_of_known(start + sizes[0]->Ok_0, sizes.skip(1)),
{
    let add = |sum: int, size: std::result::Result<u64, Seq<char>>| sum + size->Ok_0;
    sizes.lemma_fold_left_alt(start, add);
    sizes.skip(1).lemma_fold_left_alt(start + sizes[0]->Ok_0, add);
    assert(sizes.subrange(1, sizes.len() as int) =~= sizes.skip(1));
}

proof fn totals_are_sums(total: int, sizes: Seq<std::result::Result<u64, Seq<char>>>)
    requires
        0 <= total <= u64::MAX,
    ensures
        sum_of_known(total, sizes) >= total,
        input_total_from(total, sizes) is Ok <==> (forall|i: int|
            0 <= i < sizes.len() ==> (#[trigger] sizes[i]) is Ok) && sum_of_known(total, sizes)
            <= u64::MAX,
        input_total_from(total, sizes) matches Ok(sum) ==> sum == sum_of_known(total, sizes),
    decreases sizes.len(),
{
    if sizes.len() > 0 {
        let rest = sizes.skip(1);
        sums_start_with_the_first(total, sizes);
        let next = total + sizes[0]->Ok_0;
        assert(forall|i: int| 0 < i < sizes.len() ==> #[trigger] sizes[i] == rest[i - 1]);
        if next <= u64::MAX {
            totals_are_sums(next, rest);
            if sizes[0] is Ok && forall|i: int| 0 <= i < rest.len() ==> (#[trigger] rest[i]) is Ok {
                assert forall|i: int| 0 <= i < sizes.len() implies (#[trigger] sizes[i]) is Ok by {
                    if i > 0 {
                        assert(rest[i - 1] is Ok);
                    }
                }
            }
            if forall|i: int| 0 <= i < sizes.len() ==> (#[trigger] sizes[i]) is Ok {
                assert forall|i: int| 0 <= i < rest.len() implies (#[trigger] rest[i]) is Ok by {
                    assert(sizes[i + 1] == rest[i]);
                }
                assert(sizes[0] is Ok);
            }
        } else {
            sums_do_not_fall(next, rest);
        }
    }
}

proof fn sums_do_not_fall(start: int, sizes: Seq<std::result::Result<u64, Seq<char>>>)
    ensures
        sum_of_known(start, sizes) >= start,
    decreases sizes.len(),
{
    if sizes.len() > 0 {
        sums_start_with_the_first(start, sizes);
        sums_do_not_fall(start + sizes[0]->Ok_0, sizes.skip(1));
    }
}

/// The sizes of inputs are accepted exactly when all of them are known and they add up
/// to no more than the limit.
pub proof fn sizes_are_accepted_when_they_add_up(sizes: Seq<std::result::Result<u64, Seq<char>>>)
    ensures
        sizes_allowed(sizes) is Ok <==> (forall|i: int|
            0 <= i < sizes.len() ==> (#[trigger] sizes[i]) is Ok) && sum_of_known(0, sizes)
            <= MAX_SUPPORTED_TOTAL_BYTES,
{
    totals_are_sums(0, sizes);
}

} // verus!
