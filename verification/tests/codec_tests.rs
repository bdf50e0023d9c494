use std::collections::HashMap;

use markd::codec::{from_toml, migrate_to_toml, saved_store_reloads, to_toml};
use markd::errors::StoreError;
use markd::store::Bookmarks;

#[test]
fn save_then_load_reproduces_mapping() {
    let mut store = Bookmarks::new();
    store.mark("proj".to_string(), "/home/u/proj".to_string(), false);
    store.mark("docs".to_string(), "/home/u/docs".to_string(), false);
    let text = to_toml(&store).unwrap();
    let reloaded = from_toml(&text).unwrap();
    assert_eq!(reloaded.len(), 2);
    assert_eq!(reloaded.get("proj").unwrap(), "/home/u/proj");
    assert_eq!(reloaded.get("docs").unwrap(), "/home/u/docs");
}

#[test]
fn reload_helper_reproduces_mapping() {
    let mut store = Bookmarks::new();
    store.mark("one".to_string(), "/1".to_string(), false);
    let reloaded = saved_store_reloads(&store).unwrap();
    assert_eq!(reloaded.len(), 1);
    assert_eq!(reloaded.get("one").unwrap(), "/1");
}

#[test]
fn encoded_document_is_real_toml() {
    let mut store = Bookmarks::new();
    store.mark("proj".to_string(), "/home/u/proj".to_string(), false);
    let text = to_toml(&store).unwrap();
    let parsed: HashMap<String, String> = toml::from_str(&text).unwrap();
    assert_eq!(parsed.len(), 1);
    assert_eq!(parsed.get("proj").map(String::as_str), Some("/home/u/proj"));
}

#[test]
fn empty_document_loads_as_empty_store() {
    let store = from_toml("").unwrap();
    assert_eq!(store.len(), 0);
}

#[test]
fn handwritten_document_loads() {
    let store = from_toml("proj = \"/home/u/proj\"\n").unwrap();
    assert_eq!(store.len(), 1);
    assert_eq!(store.get("proj").unwrap(), "/home/u/proj");
}

#[test]
fn malformed_document_fails_persistence() {
    assert_eq!(from_toml("this is [not toml").err(), Some(StoreError::Persistence));
}

#[test]
fn migration_converts_legacy_mapping() {
    let legacy = "{\"proj\":\"/home/u/proj\"}";
    let converted = migrate_to_toml(legacy).unwrap();
    let store = from_toml(&converted).unwrap();
    assert_eq!(store.len(), 1);
    assert_eq!(store.get("proj").unwrap(), "/home/u/proj");
}

#[test]
fn migration_rerun_produces_same_document() {
    let legacy = "{\"proj\":\"/home/u/proj\",\"docs\":\"/home/u/docs\"}";
    let first = migrate_to_toml(legacy).unwrap();
    let second = migrate_to_toml(legacy).unwrap();
    assert_eq!(first, second);
}

#[test]
fn migration_of_malformed_legacy_fails_persistence() {
    assert_eq!(migrate_to_toml("not json at all").err(), Some(StoreError::Persistence));
}

#[test]
fn empty_store_round_trips() {
    let store = Bookmarks::new();
    let text = to_toml(&store).unwrap();
    let reloaded = from_toml(&text).unwrap();
    assert_eq!(reloaded.len(), 0);
}
