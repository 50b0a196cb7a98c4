//! What holds of every value, seen on some.
use pak_merger::merge::conflicts::make_conflict;
use pak_merger::merge::ids::{same_path, sha256_hex, sort_key, stable_id};
use pak_merger::merge::request::{
    capture_output_target, check_copied_output, ensure_output_target_unchanged,
    known_volume_identities_match, require_output_path, validate_request_shape,
    validate_total_input_size,
};
use pak_merger::merge::resolve::{parse_row_id, selected_input_id};
use pak_merger::merge::row_ids::{enter_id, holds_id};
use pak_merger::merge::{
    resolve, AnalysisRequest, Conflict, ConflictKind, MergeError, MergePlan, OutputTarget,
    OutputTargetStamp, PathName, Provenance, ResolutionSet, Variant,
};
use pak_merger::ordered::OrderedMap;
use pak_merger::pak::{normalize_entry_path, normalize_mount_point, OutputCompression};
use pak_merger::sorting::{sort_distinct, sort_keyed};
use pak_merger::text::{decimal, hex_byte, signed_decimal, utf16_of, utf16_text};

fn texts(list: &[&str]) -> Vec<String> {
    list.iter().map(|text| (*text).to_owned()).collect()
}

fn variant(id: &str, input_id: &str) -> Variant {
    Variant {
        id: id.to_owned(),
        label: input_id.to_uppercase(),
        input_id: input_id.to_owned(),
        raw_sha256: "11".repeat(32),
        semantic_sha256: "22".repeat(32),
        preview: "1".to_owned(),
        marker: "integer".to_owned(),
        provenance: Provenance {
            input_id: input_id.to_owned(),
            input_path: format!("{input_id}.pak"),
            entry_path: None,
            raw_sha256: "11".repeat(32),
        },
    }
}

fn field_conflict(variants: Vec<Variant>) -> Conflict {
    make_conflict(
        ConflictKind::FieldValue,
        "Local/DataBase/Test",
        Some(1),
        Some("field:x"),
        "two values",
        variants,
        true,
    )
}

fn plan_with(conflicts: Vec<Conflict>) -> MergePlan {
    MergePlan {
        schema_version: 1,
        plan_id: "p".to_owned(),
        request: AnalysisRequest {
            pak_paths: texts(&["a.pak", "b.pak"]),
            carrier_path: "a.pak".to_owned(),
        },
        inputs: vec![],
        carrier_input_id: "a".to_owned(),
        assets: vec![],
        conflicts,
        warnings: vec![],
        selected_profile_id: None,
        profile_detection_status: None,
        encoding_drift_count: 0,
        full_reencode_forbidden: true,
    }
}

fn chosen(plan_id: &str, choices: &[(&str, &str)]) -> ResolutionSet {
    let mut resolutions = ResolutionSet {
        plan_id: plan_id.to_owned(),
        ..ResolutionSet::default()
    };
    for (conflict, choice) in choices {
        resolutions
            .choices
            .insert((*conflict).to_owned(), (*choice).to_owned());
    }
    resolutions
}

#[test]
fn ordered_maps_keep_their_keys_ascending() {
    let mut map = OrderedMap::new();
    for (key, value) in [("b", 2), ("a", 1), ("ä", 4), ("c", 3), ("b", 5)] {
        map.insert(key.to_owned(), value);
    }
    let items: Vec<(&str, i32)> = map
        .items
        .iter()
        .map(|item| (item.0.as_str(), item.1))
        .collect();
    assert_eq!(items, [("a", 1), ("b", 5), ("c", 3), ("ä", 4)]);
    assert_eq!(map.find("c"), Some(2));
    assert_eq!(map.find("d"), None);
}

#[test]
fn sorting_keeps_the_items_and_their_order_under_equal_keys() {
    let items = vec![
        ("b".to_owned(), 1_u64),
        ("a".to_owned(), 2),
        ("b".to_owned(), 3),
    ];
    assert_eq!(
        sort_keyed(items),
        [
            ("a".to_owned(), 2),
            ("b".to_owned(), 1),
            ("b".to_owned(), 3)
        ]
    );
    assert_eq!(
        sort_distinct(&texts(&["b", "a", "b", "c", "a"])),
        texts(&["a", "b", "c"])
    );
}

#[test]
fn numerals_are_read_back_as_row_ids() {
    for id in [0, 7, -7, 9_999, i64::MAX, i64::MIN] {
        let text = signed_decimal(id);
        assert_eq!(text, id.to_string());
        assert_eq!(parse_row_id(&text), Some(id));
    }
    assert_eq!(decimal(u64::MAX), "18446744073709551615");
    assert_eq!(parse_row_id("9223372036854775808"), None);
    assert_eq!(parse_row_id(""), None);
    assert_eq!(parse_row_id("1x"), None);
}

#[test]
fn utf16_texts_are_read_back() {
    for text in ["", "plain", "데이터", "\u{1F600}x"] {
        let units = utf16_of(text);
        assert_eq!(units, text.encode_utf16().collect::<Vec<u16>>());
        assert_eq!(utf16_text(&units).as_deref(), Some(text));
    }
    assert_eq!(utf16_text(&vec![0xD800]), None);
}

#[test]
fn digests_are_those_of_sha256() {
    assert_eq!(
        sha256_hex(b"abc"),
        "ba7816bf8f01cfea414140de5dae2223b00361a396177a9cb410ff61f20015ad"
    );
    assert_eq!(hex_byte(0x0f), "0F");
    let id = stable_id("conflict", &texts(&["a", "bc"]));
    assert!(id.starts_with("conflict-"));
    assert_ne!(id, stable_id("conflict", &texts(&["ab", "c"])));
}

#[test]
fn names_are_compared_without_letter_case() {
    assert_eq!(sort_key("Local/DataBase"), "local/database");
    assert!(same_path("Mods/A_P.pak", "mods/a_p.PAK"));
    assert!(!same_path("Mods/A_P.pak", "mods/b_p.pak"));
}

#[test]
fn normal_mounts_and_paths_stay_as_they_are() {
    let mount = normalize_mount_point("../../../Game/Content").unwrap();
    assert_eq!(mount, "../../../Game/Content/");
    assert_eq!(normalize_mount_point(&mount).unwrap(), mount);
    assert!(normalize_mount_point("../../../Game\\Content").is_err());
    assert_eq!(normalize_entry_path("A/B.bin").unwrap(), "A/B.bin");
    for path in ["", "/A", "A//B", "A/../B", "A/./B", "C:/A", "A/"] {
        assert!(normalize_entry_path(path).is_err(), "{path}");
    }
}

#[test]
fn compression_names_differ_from_each_other() {
    assert_eq!(OutputCompression::Uncompressed.report_name(), "None");
    assert_eq!(OutputCompression::Oodle.report_name(), "Oodle");
}

#[test]
fn row_ids_are_kept_in_order_and_once() {
    let mut ids = Vec::new();
    for id in [5, -2, 5, 9, 0] {
        enter_id(&mut ids, id);
    }
    assert_eq!(ids, [-2, 0, 5, 9]);
    assert!(holds_id(&ids, 9));
    assert!(!holds_id(&ids, 8));
}

#[test]
fn conflicts_do_not_depend_on_the_order_of_their_variants() {
    let one = field_conflict(vec![variant("v1", "a"), variant("v2", "b")]);
    let other = field_conflict(vec![variant("v2", "b"), variant("v1", "a")]);
    assert_eq!(one, other);
    assert_eq!(one.variants.len(), 2);
    assert_eq!(one.row_id.as_deref(), Some("1"));

    // Variants of two inputs may have the same id: they stand by input, and then by id.
    let one = field_conflict(vec![
        variant("v2", "a"),
        variant("v1", "b"),
        variant("v1", "a"),
    ]);
    let other = field_conflict(vec![
        variant("v1", "b"),
        variant("v1", "a"),
        variant("v2", "a"),
    ]);
    assert_eq!(one, other);
    let order: Vec<(&str, &str)> = one
        .variants
        .iter()
        .map(|variant| (variant.input_id.as_str(), variant.id.as_str()))
        .collect();
    assert_eq!(order, [("a", "v1"), ("a", "v2"), ("b", "v1")]);
}

#[test]
fn plans_are_settled_exactly_when_every_conflict_is() {
    let conflict = field_conflict(vec![variant("v1", "a"), variant("v2", "b")]);
    let id = conflict.id.clone();
    let plan = plan_with(vec![conflict]);
    let error = resolve(plan.clone(), chosen("p", &[])).unwrap_err();
    assert!(matches!(error, MergeError::Unresolved(_)));
    let error = resolve(plan.clone(), chosen("other", &[(&id, "v1")])).unwrap_err();
    assert!(matches!(error, MergeError::InvalidResolution(_)));
    let error = resolve(plan.clone(), chosen("p", &[(&id, "v3")])).unwrap_err();
    assert!(matches!(error, MergeError::InvalidResolution(_)));
    let error = resolve(
        plan.clone(),
        chosen("p", &[(&id, "v1"), ("conflict-unknown", "v1")]),
    )
    .unwrap_err();
    assert!(matches!(error, MergeError::InvalidResolution(_)));

    let settled = resolve(plan.clone(), chosen("", &[(&id, "v2")])).unwrap();
    assert_eq!(settled.plan, plan);
    assert_eq!(settled.resolutions, chosen("p", &[(&id, "v2")]));
    assert_eq!(
        selected_input_id(&plan.conflicts[0], &settled.resolutions).unwrap(),
        "b"
    );
    let again = resolve(settled.plan.clone(), settled.resolutions.clone()).unwrap();
    assert_eq!(again, settled);
}

fn name(file_name: &str) -> PathName {
    PathName {
        file_name: Some(file_name.to_owned()),
        extension: file_name.rsplit_once('.').map(|parts| parts.1.to_owned()),
    }
}

#[test]
fn requests_have_one_to_sixty_four_different_paks_and_a_base_among_them() {
    let request = |paths: &[&str], carrier: &str| AnalysisRequest {
        pak_paths: texts(paths),
        carrier_path: carrier.to_owned(),
    };
    let names = |paths: &[&str]| -> Vec<PathName> { paths.iter().map(|path| name(path)).collect() };
    let accepted = |paths: &[&str], carrier: &str| {
        validate_request_shape(&request(paths, carrier), &names(paths)).is_ok()
    };
    assert!(accepted(&["a.pak", "b.pak"], "a.pak"));
    assert!(accepted(&["a.pak", "b.PAK"], "B.pak"));
    assert!(accepted(&["a.pak"], "a.pak"));
    assert!(!accepted(&[], "a.pak"));
    assert!(!accepted(&["a.pak", "b.pak"], "c.pak"));
    assert!(!accepted(&["a.pak", "A.pak"], "a.pak"));
    assert!(!accepted(&["a.pak", "b.zip"], "a.pak"));
    let many: Vec<String> = (0..65).map(|index| format!("{index}.pak")).collect();
    let borrowed: Vec<&str> = many.iter().map(String::as_str).collect();
    assert!(accepted(&borrowed[..64], "0.pak"));
    assert!(!accepted(&borrowed, "0.pak"));
    let limit = 128 * 1024 * 1024 * 1024;
    assert!(validate_total_input_size(limit).is_ok());
    assert!(validate_total_input_size(limit + 1).is_err());
}

#[test]
fn outputs_keep_the_suffix_of_a_mod() {
    assert!(require_output_path(&name("ZZMerge_P.pak")).is_ok());
    assert!(require_output_path(&name("ZZMerge.pak")).is_err());
    assert!(require_output_path(&name("ZZMerge_P.zip")).is_err());
    let nameless = PathName {
        file_name: None,
        extension: None,
    };
    assert!(require_output_path(&nameless).is_err());
}

#[test]
fn existing_outputs_stay_unless_allowed() {
    let stamp = OutputTargetStamp {
        len: 3,
        modified: Some(5),
        readonly: false,
    };
    let file = OutputTarget::File(stamp);
    assert!(matches!(
        capture_output_target("O_P.pak", &OutputTarget::Absent, false),
        Ok(None)
    ));
    assert!(capture_output_target("O_P.pak", &file, false).is_err());
    assert!(matches!(
        capture_output_target("O_P.pak", &file, true),
        Ok(Some(kept)) if kept == stamp
    ));
    assert!(capture_output_target("O_P.pak", &OutputTarget::NotRegular, true).is_err());
    let broken = OutputTarget::Unreadable("denied".to_owned());
    assert!(matches!(
        capture_output_target("O_P.pak", &broken, true),
        Err(MergeError::Io(text)) if text == "denied"
    ));
    assert!(ensure_output_target_unchanged("O_P.pak", &file, Some(stamp)).is_ok());
    assert!(ensure_output_target_unchanged("O_P.pak", &file, None).is_err());
    assert!(ensure_output_target_unchanged("O_P.pak", &OutputTarget::Absent, None).is_ok());
    assert!(ensure_output_target_unchanged("O_P.pak", &OutputTarget::Absent, Some(stamp)).is_err());
    let touched = OutputTarget::File(OutputTargetStamp {
        modified: Some(6),
        ..stamp
    });
    assert!(ensure_output_target_unchanged("O_P.pak", &touched, Some(stamp)).is_err());
}

#[test]
fn copies_of_an_output_are_checked_by_size_and_digest() {
    assert!(check_copied_output(3, "aa", 3, "aa").is_ok());
    let error = check_copied_output(2, "aa", 3, "aa").unwrap_err();
    assert_eq!(
        error.message(),
        "the merged output did not pass its final checks: the copied Pak size changed: expected 3 bytes, copied 2 bytes"
    );
    let error = check_copied_output(3, "ab", 3, "aa").unwrap_err();
    assert!(error.message().contains("expected aa, got ab"));
}

#[test]
fn only_known_volumes_are_the_same() {
    let volume = |text: &str| Some(text.to_owned());
    assert!(known_volume_identities_match(volume("v"), volume("v")));
    assert!(!known_volume_identities_match(volume("v"), volume("w")));
    assert!(!known_volume_identities_match(None, None));
    assert!(!known_volume_identities_match(volume("v"), None));
}
