//! Grouping loses no file: every file of a list is a component of its package or stands
//! alone, and nothing else does.
use vstd::prelude::*;

use super::paths::{
    component_of, grouped, grouped_from, no_components, sort_key_of, with_component,
    PackageComponent, PackageComponentsView, PackageGroupView, PackageGroupingView,
};
use crate::ordered::{
    ascending, get, put, put_keeps_order, put_then_get, slot, slot_parts,
    text_order_is_strict_and_total, values,
};
use crate::text::text_less;

verus! {

/// The file that a package has as a component.
pub open spec fn part_of(
    components: PackageComponentsView,
    component: PackageComponent,
) -> Option<Seq<char>> {
    match component {
        PackageComponent::Uasset => components.uasset,
        PackageComponent::Uexp => components.uexp,
        PackageComponent::Ubulk => components.ubulk,
        PackageComponent::Uptnl => components.uptnl,
    }
}

/// No two paths are the same component of one package.
pub open spec fn components_differ(paths: Seq<Seq<char>>) -> bool {
    forall|i: int, j: int|
        0 <= i < j < paths.len() ==> match (
            component_of(#[trigger] paths[i]),
            component_of(#[trigger] paths[j]),
        ) {
            (Some((left, first)), Some((right, second))) => left != right || sort_key_of(first)
                != sort_key_of(second),
            _ => true,
        }
}

/// A path has its place: in its package, or by itself.
spec fn has_place(
    packages: Seq<(Seq<char>, PackageGroupView)>,
    loose: Seq<(Seq<char>, Seq<char>)>,
    path: Seq<char>,
) -> bool {
    match component_of(path) {
        Some((component, base)) => get(packages, sort_key_of(base)) matches Some(group) && part_of(
            group.components,
            component,
        ) == Some(path),
        None => get(loose, sort_key_of(path)) == Some(path),
    }
}

/// A package under a key has only files of the first `count` paths that belong to it.
spec fn is_rightly_filled(
    key: Seq<char>,
    group: PackageGroupView,
    paths: Seq<Seq<char>>,
    count: int,
) -> bool {
    &&& sort_key_of(group.base_path) == key
    &&& group.complete <==> group.components.uasset is Some
    &&& forall|component: PackageComponent|
        (#[trigger] part_of(group.components, component)) matches Some(path) ==> exists|i: int|
            0 <= i < count && #[trigger] paths[i] == path && (component_of(path) matches Some(
                (found, base),
            ) && found == component && sort_key_of(base) == key)
}

spec fn are_grouped(
    packages: Seq<(Seq<char>, PackageGroupView)>,
    loose: Seq<(Seq<char>, Seq<char>)>,
    met: Seq<(Seq<char>, Seq<char>)>,
    paths: Seq<Seq<char>>,
    count: int,
) -> bool {
    &&& ascending(packages)
    &&& ascending(loose)
    &&& ascending(met)
    &&& forall|i: int| 0 <= i < count ==> has_place(packages, loose, #[trigger] paths[i])
    &&& forall|i: int| 0 <= i < count ==> get(met, sort_key_of(#[trigger] paths[i])) is Some
    &&& forall|key: Seq<char>|
        (#[trigger] get(packages, key)) matches Some(group) ==> is_rightly_filled(
            key,
            group,
            paths,
            count,
        )
    &&& forall|key: Seq<char>|
        (#[trigger] get(loose, key)) matches Some(path) ==> component_of(path) is None && exists|
            i: int,
        |
            0 <= i < count && #[trigger] paths[i] == path
}

proof fn one_component_more(
    packages: Seq<(Seq<char>, PackageGroupView)>,
    loose: Seq<(Seq<char>, Seq<char>)>,
    met: Seq<(Seq<char>, Seq<char>)>,
    paths: Seq<Seq<char>>,
    count: int,
    component: PackageComponent,
    base: Seq<char>,
)
    requires
        components_differ(paths),
        0 <= count < paths.len(),
        are_grouped(packages, loose, met, paths, count),
        component_of(paths[count]) == Some((component, base)),
    ensures
        are_grouped(
            with_component(packages, base, component, paths[count]),
            loose,
            put(met, sort_key_of(paths[count]), paths[count]),
            paths,
            count + 1,
        ),
{
    let path = paths[count];
    let key = sort_key_of(base);
    let more = with_component(packages, base, component, path);
    let before = match get(packages, key) {
        Some(group) => group,
        None => PackageGroupView { base_path: base, components: no_components(), complete: false },
    };
    let group = PackageGroupView {
        base_path: before.base_path,
        components: before.components.with(component, path),
        complete: before.complete || component == PackageComponent::Uasset,
    };
    put_keeps_order(packages, key, group);
    put_keeps_order(met, sort_key_of(path), path);
    assert(part_of(group.components, component) == Some(path));
    assert forall|i: int| 0 <= i < count + 1 implies has_place(more, loose, #[trigger] paths[i]) by {
        if i == count {
            put_then_get(packages, key, group, key);
        } else if let Some((other, stem)) = component_of(paths[i]) {
            assert(has_place(packages, loose, paths[i]));
            put_then_get(packages, key, group, sort_key_of(stem));
            if sort_key_of(stem) == key {
                assert(component_of(paths[count]) == Some((component, base)));
                assert(other != component);
            }
        } else {
            assert(has_place(packages, loose, paths[i]));
        }
    }
    assert forall|i: int| 0 <= i < count + 1 implies get(
        put(met, sort_key_of(path), path),
        sort_key_of(#[trigger] paths[i]),
    ) is Some by {
        put_then_get(met, sort_key_of(path), path, sort_key_of(paths[i]));
    }
    assert forall|name: Seq<char>| (#[trigger] get(more, name)) is Some implies is_rightly_filled(
        name,
        get(more, name)->0,
        paths,
        count + 1,
    ) by {
        put_then_get(packages, key, group, name);
        if name != key {
            assert(is_rightly_filled(name, get(packages, name)->0, paths, count));
        } else {
            if get(packages, key) is Some {
                assert(is_rightly_filled(key, before, paths, count));
            }
            assert forall|part: PackageComponent|
                (#[trigger] part_of(group.components, part)) is Some implies exists|i: int|
                0 <= i < count + 1 && #[trigger] paths[i] == part_of(group.components, part)->0 && (
                component_of(part_of(group.components, part)->0) matches Some((found, stem))
                    && found == part && sort_key_of(stem) == key) by {
                if part == component {
                    assert(paths[count] == path);
                } else {
                    assert(part_of(group.components, part) == part_of(before.components, part));
                    let q = part_of(before.components, part)->0;
                    let i = choose|i: int|
                        0 <= i < count && #[trigger] paths[i] == q && (component_of(q) matches Some(
                            (found, stem),
                        ) && found == part && sort_key_of(stem) == key);
                    assert(paths[i] == q);
                }
            }
        }
    }
}

proof fn one_file_more(
    packages: Seq<(Seq<char>, PackageGroupView)>,
    loose: Seq<(Seq<char>, Seq<char>)>,
    met: Seq<(Seq<char>, Seq<char>)>,
    paths: Seq<Seq<char>>,
    count: int,
)
    requires
        0 <= count < paths.len(),
        are_grouped(packages, loose, met, paths, count),
        component_of(paths[count]) is None,
        get(met, sort_key_of(paths[count])) is None,
    ensures
        are_grouped(
            packages,
            put(loose, sort_key_of(paths[count]), paths[count]),
            put(met, sort_key_of(paths[count]), paths[count]),
            paths,
            count + 1,
        ),
{
    let path = paths[count];
    let key = sort_key_of(path);
    let more = put(loose, key, path);
    put_keeps_order(loose, key, path);
    put_keeps_order(met, key, path);
    assert forall|i: int| 0 <= i < count + 1 implies has_place(
        packages,
        more,
        #[trigger] paths[i],
    ) by {
        put_then_get(loose, key, path, sort_key_of(paths[i]));
        if i < count {
            assert(has_place(packages, loose, paths[i]));
            assert(get(met, sort_key_of(paths[i])) is Some);
        }
    }
    assert forall|i: int| 0 <= i < count + 1 implies get(
        put(met, key, path),
        sort_key_of(#[trigger] paths[i]),
    ) is Some by {
        put_then_get(met, key, path, sort_key_of(paths[i]));
    }
    assert forall|name: Seq<char>| (#[trigger] get(packages, name)) is Some implies is_rightly_filled(
        name,
        get(packages, name)->0,
        paths,
        count + 1,
    ) by {
        assert(is_rightly_filled(name, get(packages, name)->0, paths, count));
    }
    assert forall|name: Seq<char>| (#[trigger] get(more, name)) is Some implies component_of(
        get(more, name)->0,
    ) is None && exists|i: int| 0 <= i < count + 1 && #[trigger] paths[i] == get(more, name)->0 by {
        put_then_get(loose, key, path, name);
        if name == key {
            assert(paths[count] == path);
        } else {
            let q = get(loose, name)->0;
            let i = choose|i: int| 0 <= i < count && #[trigger] paths[i] == q;
            assert(paths[i] == q);
        }
    }
}

/// A list of packages and files has a place for a path.
pub open spec fn keeps(grouping: PackageGroupingView, path: Seq<char>) -> bool {
    match component_of(path) {
        Some((component, base)) => exists|p: int|
            0 <= p < grouping.packages.len() && sort_key_of((#[trigger] grouping.packages[p]).base_path)
                == sort_key_of(base) && part_of(grouping.packages[p].components, component) == Some(
                path,
            ),
        None => grouping.loose_entries.contains(path),
    }
}

/// A list of packages and files has nothing but the paths: each file by itself is one of
/// them that is no component, each file of a package one that is that component, and a
/// package is complete exactly when it has a `.uasset`.
pub open spec fn keeps_only(grouping: PackageGroupingView, paths: Seq<Seq<char>>) -> bool {
    &&& forall|i: int|
        0 <= i < grouping.loose_entries.len() ==> paths.contains(
            #[trigger] grouping.loose_entries[i],
        ) && component_of(grouping.loose_entries[i]) is None
    &&& forall|p: int|
        0 <= p < grouping.packages.len() ==> ((#[trigger] grouping.packages[p]).complete
            <==> grouping.packages[p].components.uasset is Some)
    &&& forall|p: int, component: PackageComponent|
        0 <= p < grouping.packages.len() ==> ((#[trigger] part_of(
            grouping.packages[p].components,
            component,
        )) matches Some(path) ==> paths.contains(path) && (component_of(path) matches Some(
            (found, base),
        ) && found == component && sort_key_of(base) == sort_key_of(
            grouping.packages[p].base_path,
        )))
}

proof fn listed_values_are_found<W>(table: Seq<(Seq<char>, W)>, i: int)
    requires
        ascending(table),
        0 <= i < table.len(),
    ensures
        get(table, table[i].0) == Some(table[i].1),
{
    let key = table[i].0;
    slot_parts(table, key);
    let at = slot(table, key);
    text_order_is_strict_and_total(key, key, key);
    if at < i {
        assert(text_less(table[at].0, table[i].0));
    } else if i < at {
        assert(text_less(table[i].0, key));
    }
}

proof fn rest_is_grouped(
    packages: Seq<(Seq<char>, PackageGroupView)>,
    loose: Seq<(Seq<char>, Seq<char>)>,
    met: Seq<(Seq<char>, Seq<char>)>,
    paths: Seq<Seq<char>>,
    count: int,
)
    requires
        components_differ(paths),
        0 <= count <= paths.len(),
        are_grouped(packages, loose, met, paths, count),
    ensures
        grouped_from(packages, loose, met, paths.skip(count)) matches Ok(found) ==> keeps_only(
            found,
            paths,
        ) && forall|i: int| 0 <= i < paths.len() ==> keeps(found, #[trigger] paths[i]),
    decreases paths.len() - count,
{
    let rest = paths.skip(count);
    if count == paths.len() {
        tables_make_up_a_grouping(packages, loose, met, paths);
    } else if grouped_from(packages, loose, met, rest) is Ok {
        let path = paths[count];
        assert(rest[0] == path);
        assert(rest.skip(1) =~= paths.skip(count + 1));
        let key = sort_key_of(path);
        match component_of(path) {
            Some((component, base)) => {
                one_component_more(packages, loose, met, paths, count, component, base);
                rest_is_grouped(
                    with_component(packages, base, component, path),
                    loose,
                    put(met, key, path),
                    paths,
                    count + 1,
                );
            },
            None => {
                one_file_more(packages, loose, met, paths, count);
                rest_is_grouped(
                    packages,
                    put(loose, key, path),
                    put(met, key, path),
                    paths,
                    count + 1,
                );
            },
        }
    }
}

proof fn tables_make_up_a_grouping(
    packages: Seq<(Seq<char>, PackageGroupView)>,
    loose: Seq<(Seq<char>, Seq<char>)>,
    met: Seq<(Seq<char>, Seq<char>)>,
    paths: Seq<Seq<char>>,
)
    requires
        are_grouped(packages, loose, met, paths, paths.len() as int),
    ensures
        ({
            let found = PackageGroupingView {
                packages: values(packages),
                loose_entries: values(loose),
            };
            keeps_only(found, paths) && forall|i: int|
                0 <= i < paths.len() ==> keeps(found, #[trigger] paths[i])
        }),
{
    let found = PackageGroupingView { packages: values(packages), loose_entries: values(loose) };
    assert forall|i: int| 0 <= i < paths.len() implies keeps(found, #[trigger] paths[i]) by {
        let path = paths[i];
        assert(has_place(packages, loose, path));
        match component_of(path) {
            Some((component, base)) => {
                let key = sort_key_of(base);
                slot_parts(packages, key);
                let p = slot(packages, key);
                assert(get(packages, key) is Some);
                assert(found.packages[p] == packages[p].1);
                assert(is_rightly_filled(key, packages[p].1, paths, paths.len() as int));
            },
            None => {
                let key = sort_key_of(path);
                slot_parts(loose, key);
                assert(found.loose_entries[slot(loose, key)] == path);
            },
        }
    }
    assert forall|i: int| 0 <= i < found.loose_entries.len() implies paths.contains(
        #[trigger] found.loose_entries[i],
    ) && component_of(found.loose_entries[i]) is None by {
        listed_values_are_found(loose, i);
        assert(get(loose, loose[i].0) == Some(found.loose_entries[i]));
    }
    assert forall|p: int| 0 <= p < found.packages.len() implies is_rightly_filled(
        packages[p].0,
        #[trigger] found.packages[p],
        paths,
        paths.len() as int,
    ) by {
        listed_values_are_found(packages, p);
    }
    assert forall|p: int, component: PackageComponent|
        0 <= p < found.packages.len() && (#[trigger] part_of(
            found.packages[p].components,
            component,
        )) is Some implies paths.contains(part_of(found.packages[p].components, component)->0) && (
    component_of(part_of(found.packages[p].components, component)->0) matches Some((part, base))
        && part == component && sort_key_of(base) == sort_key_of(found.packages[p].base_path)) by {
        assert(is_rightly_filled(
            packages[p].0,
            found.packages[p],
            paths,
            paths.len() as int,
        ));
    }
}

/// Grouping keeps every path in its place, and has nothing else.
pub proof fn grouping_keeps_every_path(paths: Seq<Seq<char>>)
    requires
        components_differ(paths),
    ensures
        grouped(paths) matches Ok(found) ==> keeps_only(found, paths) && forall|i: int|
            0 <= i < paths.len() ==> keeps(found, #[trigger] paths[i]),
{
    assert(paths.skip(0) =~= paths);
    rest_is_grouped(Seq::empty(), Seq::empty(), Seq::empty(), paths, 0);
}

} // verus!
