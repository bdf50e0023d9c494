use markd::query::{filter_list, list, sort_entries, Filters};
use markd::store::Bookmarks;

fn pair(a: &str, b: &str) -> (String, String) {
    (a.to_string(), b.to_string())
}

#[test]
fn filters_any_reports_presence() {
    let none = Filters { filter: None, start: None, end: None };
    assert!(!none.any());
    let one = Filters { filter: Some("x".to_string()), start: None, end: None };
    assert!(one.any());
    let other = Filters { filter: None, start: None, end: Some("x".to_string()) };
    assert!(other.any());
}

#[test]
fn filter_conjunction_keeps_only_full_matches() {
    let mut rows = vec![pair("abc", "/p1"), pair("abz", "/p2"), pair("xabc", "/p3")];
    let filters = Filters {
        filter: Some("ab".to_string()),
        start: Some("a".to_string()),
        end: Some("c".to_string()),
    };
    filter_list(&mut rows, &filters);
    assert_eq!(rows, vec![pair("abc", "/p1")]);
}

#[test]
fn filter_substring_alone() {
    let mut rows = vec![pair("abc", "/p1"), pair("bcd", "/p2"), pair("xyz", "/p3")];
    let filters = Filters { filter: Some("bc".to_string()), start: None, end: None };
    filter_list(&mut rows, &filters);
    assert_eq!(rows, vec![pair("abc", "/p1"), pair("bcd", "/p2")]);
}

#[test]
fn filter_with_none_given_keeps_everything() {
    let mut rows = vec![pair("abc", "/p1"), pair("bcd", "/p2")];
    let filters = Filters { filter: None, start: None, end: None };
    filter_list(&mut rows, &filters);
    assert_eq!(rows, vec![pair("abc", "/p1"), pair("bcd", "/p2")]);
}

#[test]
fn filter_empty_fragment_matches_all() {
    let mut rows = vec![pair("abc", "/p1"), pair("bcd", "/p2")];
    let filters = Filters { filter: Some(String::new()), start: None, end: None };
    filter_list(&mut rows, &filters);
    assert_eq!(rows.len(), 2);
}

#[test]
fn sort_orders_by_name() {
    let mut rows = vec![pair("cherry", "/1"), pair("apple", "/3"), pair("banana", "/2")];
    sort_entries(&mut rows, false);
    assert_eq!(rows, vec![pair("apple", "/3"), pair("banana", "/2"), pair("cherry", "/1")]);
}

#[test]
fn sort_orders_by_path() {
    let mut rows = vec![pair("cherry", "/1"), pair("apple", "/3"), pair("banana", "/2")];
    sort_entries(&mut rows, true);
    assert_eq!(rows, vec![pair("cherry", "/1"), pair("banana", "/2"), pair("apple", "/3")]);
}

#[test]
fn list_sorts_and_filters_store_entries() {
    let mut store = Bookmarks::new();
    store.mark("delta".to_string(), "/d".to_string(), false);
    store.mark("alpha".to_string(), "/a".to_string(), false);
    store.mark("dally".to_string(), "/z".to_string(), false);
    let filters = Filters { filter: None, start: Some("d".to_string()), end: None };
    let rows = list(&store, &filters, false);
    assert_eq!(rows, vec![pair("dally", "/z"), pair("delta", "/d")]);
}

#[test]
fn list_without_filters_returns_all_sorted() {
    let mut store = Bookmarks::new();
    store.mark("b".to_string(), "/2".to_string(), false);
    store.mark("a".to_string(), "/1".to_string(), false);
    let filters = Filters { filter: None, start: None, end: None };
    let rows = list(&store, &filters, false);
    assert_eq!(rows, vec![pair("a", "/1"), pair("b", "/2")]);
}
