use markd::errors::{Outcome, StoreError};
use markd::store::{derive_name, is_affirmative, quick_slot_name, Bookmarks};

#[test]
fn mark_then_get_returns_path() {
    let mut store = Bookmarks::new();
    let outcome = store.mark("proj".to_string(), "/home/u/proj".to_string(), false);
    assert_eq!(outcome, Outcome::Created);
    let got = store.get("proj").unwrap();
    assert_eq!(got, "/home/u/proj");
}

#[test]
fn mark_existing_with_decline_is_cancelled() {
    let mut store = Bookmarks::new();
    store.mark("proj".to_string(), "/old/path".to_string(), false);
    let outcome = store.mark("proj".to_string(), "/new/path".to_string(), false);
    assert_eq!(outcome, Outcome::Cancelled);
    assert_eq!(store.get("proj").unwrap(), "/old/path");
    assert_eq!(store.len(), 1);
}

#[test]
fn mark_existing_with_confirm_updates() {
    let mut store = Bookmarks::new();
    store.mark("proj".to_string(), "/old/path".to_string(), false);
    let outcome = store.mark("proj".to_string(), "/new/path".to_string(), true);
    assert_eq!(outcome, Outcome::Updated);
    assert_eq!(store.get("proj").unwrap(), "/new/path");
    assert_eq!(store.len(), 1);
}

#[test]
fn quick_slot_overwrites_without_confirmation() {
    let mut store = Bookmarks::new();
    store.mark(quick_slot_name().to_string(), "/first".to_string(), false);
    let outcome = store.mark(quick_slot_name().to_string(), "/second".to_string(), false);
    assert_eq!(outcome, Outcome::Updated);
    assert_eq!(store.get(quick_slot_name()).unwrap(), "/second");
}

#[test]
fn quick_slot_needs_no_confirmation() {
    let mut store = Bookmarks::new();
    store.mark(quick_slot_name().to_string(), "/first".to_string(), false);
    assert!(!store.needs_confirmation(quick_slot_name()));
    store.mark("other".to_string(), "/x".to_string(), false);
    assert!(store.needs_confirmation("other"));
    assert!(!store.needs_confirmation("absent"));
}

#[test]
fn quick_slot_name_is_sentinel() {
    assert_eq!(quick_slot_name(), "markd-temp");
}

#[test]
fn remove_then_get_fails_not_found() {
    let mut store = Bookmarks::new();
    store.mark("proj".to_string(), "/home/u/proj".to_string(), false);
    let removed = store.remove("proj").unwrap();
    assert_eq!(removed, "/home/u/proj");
    assert_eq!(store.get("proj"), Err(StoreError::NotFound));
}

#[test]
fn remove_absent_fails_not_found() {
    let mut store = Bookmarks::new();
    assert_eq!(store.remove("ghost"), Err(StoreError::NotFound));
}

#[test]
fn get_on_empty_store_fails_not_found() {
    let store = Bookmarks::new();
    assert_eq!(store.get("anything"), Err(StoreError::NotFound));
}

#[test]
fn purge_removes_only_dead_entries() {
    let mut store = Bookmarks::new();
    store.mark("a".to_string(), "/live/a".to_string(), false);
    store.mark("b".to_string(), "/gone/b".to_string(), false);
    store.mark("c".to_string(), "/live/c".to_string(), false);
    let alive = vec![true, false, true];
    let removed = store.purge(&alive);
    assert_eq!(removed, vec![("b".to_string(), "/gone/b".to_string())]);
    assert_eq!(store.len(), 2);
    assert_eq!(store.get("a").unwrap(), "/live/a");
    assert_eq!(store.get("b"), Err(StoreError::NotFound));
    assert_eq!(store.get("c").unwrap(), "/live/c");
}

#[test]
fn purge_with_all_alive_removes_nothing() {
    let mut store = Bookmarks::new();
    store.mark("a".to_string(), "/live/a".to_string(), false);
    store.mark("b".to_string(), "/live/b".to_string(), false);
    let alive = vec![true, true];
    let removed = store.purge(&alive);
    assert!(removed.is_empty());
    assert_eq!(store.len(), 2);
}

#[test]
fn purge_on_empty_store_removes_nothing() {
    let mut store = Bookmarks::new();
    let alive: Vec<bool> = vec![];
    assert!(store.purge(&alive).is_empty());
}

#[test]
fn derive_name_lowercases_alias() {
    let name = derive_name(Some("Foo".to_string()), "/irrelevant").unwrap();
    assert_eq!(name, "foo");
}

#[test]
fn derive_name_uses_path_basename() {
    let name = derive_name(None, "/home/u/MyDir").unwrap();
    assert_eq!(name, "mydir");
}

#[test]
fn derive_name_on_root_path_fails_resolution() {
    assert_eq!(derive_name(None, "/"), Err(StoreError::Resolution));
}

#[test]
fn case_insensitive_collision_takes_update_path() {
    let mut store = Bookmarks::new();
    let first = derive_name(Some("Foo".to_string()), "/x").unwrap();
    let o1 = store.mark(first, "/home/u/one".to_string(), false);
    assert_eq!(o1, Outcome::Created);
    let second = derive_name(Some("foo".to_string()), "/y").unwrap();
    assert!(store.needs_confirmation(&second));
    let o2 = store.mark(second.clone(), "/home/u/two".to_string(), false);
    assert_eq!(o2, Outcome::Cancelled);
    assert_eq!(store.len(), 1);
    assert_eq!(store.get("foo").unwrap(), "/home/u/one");
    let o3 = store.mark(second, "/home/u/two".to_string(), true);
    assert_eq!(o3, Outcome::Updated);
    assert_eq!(store.get("foo").unwrap(), "/home/u/two");
    assert_eq!(store.len(), 1);
}

#[test]
fn affirmative_inputs_confirm() {
    assert!(is_affirmative("y"));
    assert!(is_affirmative("yes"));
    assert!(is_affirmative("y\n"));
    assert!(is_affirmative("  yes  \n"));
}

#[test]
fn non_affirmative_inputs_decline() {
    assert!(!is_affirmative(""));
    assert!(!is_affirmative("\n"));
    assert!(!is_affirmative("Y"));
    assert!(!is_affirmative("Yes"));
    assert!(!is_affirmative("no"));
    assert!(!is_affirmative("yess"));
}

#[test]
fn error_messages_describe_each_kind() {
    assert_eq!(StoreError::InvalidPath.message(), "invalid path provided");
    assert_eq!(StoreError::NotFound.message(), "bookmark not found");
    assert_eq!(StoreError::Persistence.message(), "failed to read or write bookmarks");
    assert_eq!(StoreError::Resolution.message(), "couldn't derive a bookmark name");
}

#[test]
fn outcome_messages_describe_each_kind() {
    assert_eq!(Outcome::Created.message(), "bookmarked");
    assert_eq!(Outcome::Updated.message(), "bookmark entry updated");
    assert_eq!(Outcome::Cancelled.message(), "bookmark operation cancelled");
}
