//! Paths, base folders and package groups.
use pak_merger::pak::{
    group_packages, normalize_entry_path, normalize_mount_point, PackageComponent, PakError,
};

fn texts(list: &[&str]) -> Vec<String> {
    list.iter().map(|text| (*text).to_owned()).collect()
}

#[test]
fn path_validation_rejects_unsafe_forms() {
    for path in [
        "",
        "/absolute.uasset",
        "C:/drive.uasset",
        "../escape.uasset",
        "a/../escape.uasset",
        "a//b.uasset",
        "a\\b.uasset",
        "a/./b.uasset",
        "a/\0b.uasset",
    ] {
        assert!(normalize_entry_path(path).is_err(), "accepted {path:?}");
    }
    assert_eq!(
        normalize_entry_path("Local/DataBase/EnemyID.uasset").unwrap(),
        "Local/DataBase/EnemyID.uasset"
    );
    assert_eq!(
        normalize_entry_path("데이터/기술 설명.uasset").unwrap(),
        "데이터/기술 설명.uasset"
    );
}

#[test]
fn rejected_paths_say_why() {
    let reason = |path: &str| match normalize_entry_path(path) {
        Err(PakError::InvalidPath { reason, .. }) => reason,
        other => panic!("unexpected outcome: {other:?}"),
    };
    assert_eq!(reason(""), "path is empty");
    assert_eq!(reason("/a"), "absolute paths are forbidden");
    assert_eq!(reason("a\\b"), "backslashes are forbidden");
    assert_eq!(reason("a\u{7}b"), "NUL/control characters are forbidden");
    assert_eq!(
        reason("a:b"),
        "drive/device/alternate-stream separators are forbidden"
    );
    assert_eq!(reason("a/"), "empty path component is forbidden");
    assert_eq!(reason("a/.."), "dot traversal components are forbidden");
}

#[test]
fn base_folders_end_with_a_slash() {
    let normal = normalize_mount_point("../../../Game/Content").unwrap();
    assert_eq!(normal, "../../../Game/Content/");
    assert_eq!(normalize_mount_point(&normal).unwrap(), normal);
    for mount in ["", "/Game/", "\\Game", "Game\\Content", "C:/Game/", "Game//Content/"] {
        assert!(
            matches!(
                normalize_mount_point(mount),
                Err(PakError::InvalidMountPoint { .. })
            ),
            "accepted {mount:?}"
        );
    }
}

#[test]
fn grouping_is_case_insensitive_and_marks_incomplete_packages() {
    let grouping = group_packages(&texts(&[
        "Local/DB/Foo.uasset",
        "Local/DB/Foo.uexp",
        "Local/DB/Only.ubulk",
        "notes/readme.txt",
    ]))
    .unwrap();
    assert_eq!(grouping.packages.len(), 2);
    assert!(grouping.packages.iter().any(|group| group.complete));
    assert!(grouping.packages.iter().any(|group| !group.complete));
    assert_eq!(grouping.loose_entries, ["notes/readme.txt"]);
}

#[test]
fn duplicate_paths_are_rejected_case_insensitively() {
    let result = group_packages(&texts(&["A/Foo.uasset", "a/foo.UASSET"]));
    assert!(matches!(result, Err(PakError::DuplicatePath { .. })));
}

#[test]
fn components_are_known_by_their_extension() {
    assert_eq!(PackageComponent::Uasset.extension(), ".uasset");
    assert_eq!(PackageComponent::Uexp.extension(), ".uexp");
    assert_eq!(PackageComponent::Ubulk.extension(), ".ubulk");
    assert_eq!(PackageComponent::Uptnl.extension(), ".uptnl");
    let (component, base) = PackageComponent::from_path("A/B.UEXP").unwrap();
    assert_eq!(component, PackageComponent::Uexp);
    assert_eq!(base, "A/B");
    assert!(PackageComponent::from_path("A/B.txt").is_none());
}
