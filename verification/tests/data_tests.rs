use macroquad_toolkit::data_loader::{items_by_id, json_outcome};
use std::collections::HashMap;

use macroquad_toolkit::data_loader::{load_embedded_json, load_embedded_json_map, DataRegistry};
use serde::de::Error as _;
use serde::{Deserialize, Deserializer};

#[derive(Debug, Clone, PartialEq)]
struct TestItem {
    id: String,
    name: String,
    value: i32,
}

impl<'de> Deserialize<'de> for TestItem {
    fn deserialize<D: Deserializer<'de>>(deserializer: D) -> Result<Self, D::Error> {
        let v = serde_json::Value::deserialize(deserializer)?;
        let text = |key: &str| -> Result<String, D::Error> {
            v.get(key)
                .and_then(|m| m.as_str())
                .map(|s| s.to_string())
                .ok_or_else(|| D::Error::custom(format!("missing field `{}`", key)))
        };
        let value = v
            .get("value")
            .and_then(|m| m.as_i64())
            .ok_or_else(|| D::Error::custom("missing field `value`"))?;
        Ok(TestItem {
            id: text("id")?,
            name: text("name")?,
            value: value as i32,
        })
    }
}

const ITEMS: &str = r#"[
    {"id": "sword", "name": "Iron Sword", "value": 100},
    {"id": "shield", "name": "Wooden Shield", "value": 50}
]"#;

#[test]
fn test_load_embedded_json() {
    let json = r#"[
        {"id": "sword", "name": "Iron Sword", "value": 100},
        {"id": "shield", "name": "Wooden Shield", "value": 50}
    ]"#;

    let items: Vec<TestItem> = load_embedded_json(json).unwrap();
    assert_eq!(items.len(), 2);
    assert_eq!(items[0].id, "sword");
}

#[test]
fn test_load_embedded_json_map() {
    let json = r#"[
        {"id": "sword", "name": "Iron Sword", "value": 100},
        {"id": "shield", "name": "Wooden Shield", "value": 50}
    ]"#;

    let items: HashMap<String, TestItem> =
        load_embedded_json_map(json, "id").unwrap().into_iter().collect();
    assert_eq!(items.len(), 2);
    assert_eq!(items.get("sword").unwrap().value, 100);
    assert_eq!(items.get("shield").unwrap().name, "Wooden Shield");
}

#[test]
fn test_data_registry() {
    let json = r#"[
        {"id": "sword", "name": "Iron Sword", "value": 100},
        {"id": "shield", "name": "Wooden Shield", "value": 50}
    ]"#;

    let registry: DataRegistry<TestItem> = DataRegistry::from_embedded_json(json, "id").unwrap();

    assert_eq!(registry.len(), 2);
    assert!(registry.contains("sword"));
    assert_eq!(registry.get("sword").unwrap().name, "Iron Sword");
}

#[test]
fn map_entries_follow_array_order() {
    let entries: Vec<(String, TestItem)> = load_embedded_json_map(ITEMS, "id").unwrap();
    let ids: Vec<&str> = entries.iter().map(|(k, _)| k.as_str()).collect();
    assert_eq!(ids, vec!["sword", "shield"]);
    assert_eq!(entries[1].1.value, 50);
}

#[test]
fn malformed_json_is_a_parse_error() {
    let err = load_embedded_json::<Vec<TestItem>>("[{").unwrap_err();
    assert!(err.starts_with("JSON parse error: "));
    let err = load_embedded_json_map::<TestItem>("{\"id\": 1}", "id").unwrap_err();
    assert!(err.starts_with("JSON parse error: "));
}

#[test]
fn missing_identifier_is_reported() {
    let json = r#"[{"id": "a", "name": "A", "value": 1}, {"name": "B", "value": 2}]"#;
    let err = load_embedded_json_map::<TestItem>(json, "id").unwrap_err();
    assert_eq!(err, "Missing or invalid 'id' field");
    let numeric = r#"[{"id": 7, "name": "B", "value": 2}]"#;
    let err = load_embedded_json_map::<TestItem>(numeric, "id").unwrap_err();
    assert_eq!(err, "Missing or invalid 'id' field");
}

#[test]
fn unconvertible_item_names_its_identifier() {
    let json = r#"[{"id": "axe", "name": "Axe"}]"#;
    let err = load_embedded_json_map::<TestItem>(json, "id").unwrap_err();
    assert!(err.starts_with("Failed to parse item 'axe': "));
}

#[test]
fn later_duplicate_replaces_earlier() {
    let json = r#"[{"id": "a", "name": "First", "value": 1}, {"id": "a", "name": "Second", "value": 2}]"#;
    let registry: DataRegistry<TestItem> = DataRegistry::from_embedded_json(json, "id").unwrap();
    assert_eq!(registry.len(), 1);
    assert_eq!(registry.get("a").unwrap().name, "Second");
}

#[test]
fn registry_insert_remove_and_merge() {
    let mut registry: DataRegistry<i32> = DataRegistry::new();
    assert!(registry.is_empty());
    registry.insert("a".to_string(), 1);
    registry.insert("b".to_string(), 2);
    registry.insert("a".to_string(), 3);
    assert_eq!(registry.len(), 2);
    assert_eq!(registry.get("a"), Some(&3));
    assert_eq!(registry.remove("b"), Some(2));
    assert_eq!(registry.remove("b"), None);
    assert!(!registry.contains("b"));

    let other = DataRegistry::from_map(vec![("a".to_string(), 10), ("c".to_string(), 30)]);
    registry.merge(other);
    assert_eq!(registry.len(), 2);
    assert_eq!(registry.get("a"), Some(&10));
    assert_eq!(registry.get("c"), Some(&30));

    let mut ids: Vec<String> = registry.ids().into_iter().cloned().collect();
    ids.sort();
    assert_eq!(ids, vec!["a".to_string(), "c".to_string()]);
    let total: i32 = registry.iter().into_iter().map(|(_, v)| *v).sum();
    assert_eq!(total, 40);

    let copy = registry.clone();
    assert_eq!(copy.get("c"), Some(&30));
    let empty: DataRegistry<i32> = DataRegistry::default();
    assert_eq!(empty.len(), 0);
}

#[test]
fn json_outcome_prefixes_serde_errors() {
    let ok: Result<i32, serde_json::Error> = serde_json::from_str("5");
    assert_eq!(json_outcome(ok), Ok(5));
    let bad: Result<i32, serde_json::Error> = serde_json::from_str("x");
    let detail = bad.as_ref().unwrap_err().to_string();
    assert_eq!(json_outcome(bad), Err(format!("JSON parse error: {}", detail)));
}

#[test]
fn parsed_items_are_keyed_in_order() {
    let items: Vec<serde_json::Value> =
        serde_json::from_str(r#"[{"id": "b", "n": 1}, {"id": "a", "n": 2}]"#).unwrap();
    let entries: Vec<(String, std::collections::BTreeMap<String, serde_json::Value>)> =
        items_by_id(items, "id").unwrap();
    assert_eq!(entries.len(), 2);
    assert_eq!(entries[0].0, "b");
    assert_eq!(entries[1].0, "a");
    assert_eq!(entries[1].1.get("n"), Some(&serde_json::Value::from(2)));
    let missing: Vec<serde_json::Value> = serde_json::from_str(r#"[{"id": "x"}, {"key": "y"}]"#).unwrap();
    let err = items_by_id::<serde_json::Value>(missing, "id").unwrap_err();
    assert_eq!(err, "Missing or invalid 'id' field");
    let wrong: Vec<serde_json::Value> = serde_json::from_str(r#"[{"id": "z"}]"#).unwrap();
    let err = items_by_id::<Vec<u8>>(wrong, "id").unwrap_err();
    assert!(err.starts_with("Failed to parse item 'z': "));
    let none = items_by_id::<u8>(Vec::new(), "id").unwrap();
    assert!(none.is_empty());
}

#[test]
fn repeated_ids_keep_the_last_item() {
    let json = r#"[
        {"id": "sword", "name": "Iron Sword", "value": 100},
        {"id": "shield", "name": "Wooden Shield", "value": 50},
        {"id": "sword", "name": "Steel Sword", "value": 250}
    ]"#;
    let entries: Vec<(String, TestItem)> = load_embedded_json_map(json, "id").unwrap();
    assert_eq!(entries.len(), 2);
    assert_eq!(entries[0].0, "sword");
    assert_eq!(entries[0].1.name, "Steel Sword");
    assert_eq!(entries[0].1.value, 250);
    assert_eq!(entries[1].0, "shield");
    let registry: DataRegistry<TestItem> = DataRegistry::from_embedded_json(json, "id").unwrap();
    assert_eq!(registry.len(), 2);
    assert_eq!(registry.get("sword").unwrap().value, 250);
}
