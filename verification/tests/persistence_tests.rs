use macroquad_toolkit::persistence::slot_name_from_file;
use macroquad_toolkit::persistence::temp_file_name;
use macroquad_toolkit::persistence::{as_version, JsonKind};
use macroquad_toolkit::persistence::{
    deserialize_outcome, deserialize_saved, deserialize_value, serialization_outcome,
    serialize_compact, serialize_pretty,
};
use macroquad_toolkit::persistence::{
    check_version, key_file_name, peek_version_from_str, sanitize_key, slot_file_name, slot_key,
    SaveSlot, VersionCheck,
};

#[test]
fn test_peek_version_from_common_shapes() {
    assert_eq!(
        peek_version_from_str(r#"{"version":"2.0.0","data":{}}"#).unwrap(),
        Some("2.0.0".to_string())
    );
    assert_eq!(
        peek_version_from_str(r#"{"save_version":6,"state":{}}"#).unwrap(),
        Some("6".to_string())
    );
    assert_eq!(
        peek_version_from_str(r#"{"slot":{"version":"1.1"},"data":{}}"#).unwrap(),
        Some("1.1".to_string())
    );
}

#[test]
fn test_key_file_name_sanitizes_paths() {
    assert_eq!(key_file_name("profile/settings"), "profile_settings.json");
    assert_eq!(key_file_name("save.json"), "save.json");
}

#[test]
fn version_fields_are_tried_in_order() {
    assert_eq!(
        peek_version_from_str(r#"{"version":true,"schema_version":"3","slot":{"version":"9"}}"#).unwrap(),
        Some("3".to_string())
    );
    assert_eq!(
        peek_version_from_str(r#"{"version":"1","save_version":"2"}"#).unwrap(),
        Some("1".to_string())
    );
    assert_eq!(peek_version_from_str(r#"{"data":{}}"#).unwrap(), None);
    assert_eq!(peek_version_from_str("[1, 2]").unwrap(), None);
    let err = peek_version_from_str("{").unwrap_err();
    assert!(err.starts_with("JSON parse error: "));
}

#[test]
fn check_version_splits_current_from_outdated() {
    match check_version(r#"{"version":"2.0","data":1}"#, "2.0").unwrap() {
        VersionCheck::Current(v) => assert_eq!(v["data"], 1),
        VersionCheck::Outdated(..) => panic!("expected the current version"),
    }
    match check_version(r#"{"version":"1.0"}"#, "2.0").unwrap() {
        VersionCheck::Outdated(ver, _) => assert_eq!(ver, Some("1.0".to_string())),
        VersionCheck::Current(_) => panic!("expected an outdated version"),
    }
    match check_version(r#"{"data":1}"#, "2.0").unwrap() {
        VersionCheck::Outdated(ver, _) => assert_eq!(ver, None),
        VersionCheck::Current(_) => panic!("expected a missing version"),
    }
    assert!(check_version("not json", "1").unwrap_err().starts_with("JSON parse error: "));
}

#[test]
fn keys_are_sanitized_character_by_character() {
    assert_eq!(sanitize_key(r#"a/b\c:d*e?f"g<h>i|j"#), "a_b_c_d_e_f_g_h_i_j");
    assert_eq!(sanitize_key("café"), "café");
    assert_eq!(key_file_name("a:b"), "a_b.json");
    assert_eq!(key_file_name(""), ".json");
    assert_eq!(key_file_name(&key_file_name("x?y")), key_file_name("x?y"));
}

#[test]
fn slot_names_prefix_save() {
    assert_eq!(slot_key("slot_1"), "save_slot_1");
    assert_eq!(slot_file_name("autosave"), "save_autosave.json");
}

#[test]
fn save_slot_records_unknown_date() {
    let slot = SaveSlot::new("slot_1".to_string(), "1.0.0".to_string());
    assert_eq!(slot.name, "slot_1");
    assert_eq!(slot.version, "1.0.0");
    assert_eq!(slot.save_date, "Unknown");
}

#[test]
fn slot_listing_keeps_save_files_sorted() {
    let files: Vec<String> = ["save_b.json", "notes.txt", "save_a.json", "save_.json", "save_c.jso", "save_B.json"]
        .iter()
        .map(|s| s.to_string())
        .collect();
    assert_eq!(
        macroquad_toolkit::persistence::save_slot_names(&files),
        vec!["".to_string(), "B".to_string(), "a".to_string(), "b".to_string()]
    );
    assert!(macroquad_toolkit::persistence::save_slot_names(&[]).is_empty());
}

#[test]
fn slot_names_come_from_save_files_only() {
    assert_eq!(slot_name_from_file("save_slot_1.json"), Some("slot_1".to_string()));
    assert_eq!(slot_name_from_file("save_json"), None);
    assert_eq!(slot_name_from_file("autosave.json"), None);
    assert_eq!(slot_name_from_file("save_é.json"), Some("é".to_string()));
}

#[test]
fn temp_files_are_hidden_siblings() {
    assert_eq!(temp_file_name(Some("save_1.json")), ".save_1.json.tmp");
    assert_eq!(temp_file_name(None), ".save.tmp");
}

#[test]
fn saved_text_converts_into_the_requested_type() {
    let v: Vec<i32> = deserialize_saved("[1, 2, 3]").unwrap();
    assert_eq!(v, vec![1, 2, 3]);
    let bad: Result<Vec<i32>, String> = deserialize_saved("[1, \"two\"]");
    assert!(bad.unwrap_err().starts_with("Deserialization error: "));
    let broken: Result<Vec<i32>, String> = deserialize_saved("[1, 2");
    let msg = broken.unwrap_err();
    assert!(msg.starts_with("Deserialization error: "));
    assert!(msg.len() > "Deserialization error: ".len());
}

#[test]
fn parsed_values_convert_into_the_requested_type() {
    let value: serde_json::Value = serde_json::from_str(r#"{"a": 1}"#).unwrap();
    let map: std::collections::BTreeMap<String, u8> = deserialize_value(value.clone()).unwrap();
    assert_eq!(map.get("a"), Some(&1));
    let wrong: Result<Vec<u8>, String> = deserialize_value(value);
    assert!(wrong.unwrap_err().starts_with("Deserialization error: "));
}

#[test]
fn outcomes_map_errors_to_prefixed_messages() {
    let err = serde_json::from_str::<u8>("x").unwrap_err();
    let text = err.to_string();
    let out: Result<u8, String> = deserialize_outcome(Err(err));
    assert_eq!(out, Err(format!("Deserialization error: {}", text)));
    assert_eq!(deserialize_outcome(Ok::<u8, serde_json::Error>(4)), Ok(4));
    let err = serde_json::from_str::<u8>("[").unwrap_err();
    let text = err.to_string();
    assert_eq!(serialization_outcome(Err(err)), Err(format!("Serialization error: {}", text)));
    assert_eq!(serialization_outcome(Ok("[]".to_string())), Ok("[]".to_string()));
}

#[test]
fn values_are_written_as_json() {
    assert_eq!(serialize_compact(&vec![1, 2]), Ok("[1,2]".to_string()));
    assert_eq!(serialize_pretty(&vec![1, 2]), Ok("[\n  1,\n  2\n]".to_string()));
    let mut bad = std::collections::BTreeMap::new();
    bad.insert((1, 2), 3);
    assert!(serialize_compact(&bad).unwrap_err().starts_with("Serialization error: "));
    assert!(serialize_pretty(&bad).unwrap_err().starts_with("Serialization error: "));
}

#[test]
fn only_strings_and_numbers_count_as_versions() {
    assert_eq!(
        peek_version_from_str(r#"{"version": true, "save_version": 3}"#).unwrap(),
        Some("3".to_string())
    );
    assert_eq!(peek_version_from_str(r#"{"version": null}"#).unwrap(), None);
    assert_eq!(peek_version_from_str(r#"{"version": 1.5}"#).unwrap(), Some("1.5".to_string()));
    assert_eq!(
        peek_version_from_str(r#"{"version": [1], "schema_version": {}, "slot": {"version": "x"}}"#)
            .unwrap(),
        Some("x".to_string())
    );
    assert_eq!(as_version(JsonKind::Bool(true)), None);
    assert_eq!(as_version(JsonKind::Null), None);
    assert_eq!(as_version(JsonKind::Array), None);
    assert_eq!(as_version(JsonKind::Object), None);
    assert_eq!(as_version(JsonKind::Number("2".to_string())), Some("2".to_string()));
    assert_eq!(as_version(JsonKind::Text("v1".to_string())), Some("v1".to_string()));
}
