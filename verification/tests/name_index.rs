use bug_graph::name_index::{IndexError, NameIndex};

fn filled(names: &[&str]) -> NameIndex {
    let mut index = NameIndex::new();
    for (i, name) in names.iter().enumerate() {
        assert_eq!(index.insert(name.to_string(), 100 + i as u128), Ok(()));
    }
    index
}

fn names(listed: &[(String, u128)]) -> Vec<&str> {
    listed.iter().map(|(name, _)| name.as_str()).collect()
}

#[test]
fn entries_are_kept_in_the_order_of_their_names() {
    let index = filled(&["b", "a:b", "a", "", "a:a", "B", "é", "z"]);
    assert_eq!(index.len(), 8);
    assert_eq!(names(&index.get_all()), vec!["", "B", "a", "a:a", "a:b", "b", "z", "é"]);
    assert_eq!(index.get_all()[0], (String::new(), 103));
}

#[test]
fn lookups_go_both_ways() {
    let index = filled(&["one", "two", "three"]);
    assert_eq!(index.lookup_id("two"), Some(101));
    assert_eq!(index.lookup_name(102), Some(&"three".to_string()));
    assert_eq!(index.lookup_id("four"), None);
    assert_eq!(index.lookup_id("tw"), None);
    assert_eq!(index.lookup_id("twoo"), None);
    assert_eq!(index.lookup_name(99), None);
    assert!(index.contains_name("one"));
    assert!(!index.contains_name(""));
}

#[test]
fn the_same_pair_can_be_entered_again() {
    let mut index = filled(&["one", "two"]);
    assert_eq!(index.insert("one".to_string(), 100), Ok(()));
    assert_eq!(index.len(), 2);
    assert_eq!(index.get_all(), vec![("one".to_string(), 100), ("two".to_string(), 101)]);
}

#[test]
fn a_name_is_entered_for_one_vertex_only() {
    let mut index = filled(&["one", "two"]);
    assert_eq!(index.insert("one".to_string(), 7), Err(IndexError::NameTaken));
    assert_eq!(index.insert("one".to_string(), 101), Err(IndexError::NameTaken));
    assert_eq!(index.lookup_id("one"), Some(100));
    assert_eq!(index.lookup_name(7), None);
    assert_eq!(index.len(), 2);
}

#[test]
fn a_vertex_is_entered_under_one_name_only() {
    let mut index = filled(&["one", "two"]);
    assert_eq!(index.insert("three".to_string(), 100), Err(IndexError::VertexTaken));
    assert_eq!(index.lookup_id("three"), None);
    assert_eq!(index.lookup_name(100), Some(&"one".to_string()));
    assert_eq!(index.len(), 2);
}

#[test]
fn a_prefix_search_returns_true_prefixes_in_order() {
    let index = filled(&["env:b", "env", "env:a:1", "enw", "en", "f", "env:a", "Env:a"]);
    let found = index.search_prefix("env", 10);
    assert_eq!(names(&found), vec!["env", "env:a", "env:a:1", "env:b"]);
    assert_eq!(found[1].1, 106);
    assert_eq!(names(&index.search_prefix("env:a", 10)), vec!["env:a", "env:a:1"]);
    assert_eq!(names(&index.search_prefix("en", 10)).len(), 6);
    assert!(index.search_prefix("env:c", 10).is_empty());
    assert!(index.search_prefix("ena", 10).is_empty());
    assert!(index.search_prefix("g", 10).is_empty());
    assert_eq!(index.search_prefix("", 10).len(), 8);
}

#[test]
fn a_prefix_search_stops_at_its_limit() {
    let index = filled(&["a1", "a2", "a3", "a4", "b"]);
    assert_eq!(names(&index.search_prefix("a", 3)), vec!["a1", "a2", "a3"]);
    assert_eq!(names(&index.search_prefix("a", 4)), vec!["a1", "a2", "a3", "a4"]);
    assert_eq!(names(&index.search_prefix("a", 5)), vec!["a1", "a2", "a3", "a4"]);
    assert!(index.search_prefix("a", 0).is_empty());
}

#[test]
fn a_search_hands_out_ten_entries_at_most() {
    let mut index = NameIndex::new();
    for i in 0..12u128 {
        index.insert(format!("n{:02}", 11 - i), i).unwrap();
    }
    let found = index.search("n");
    assert_eq!(found.len(), 10);
    assert_eq!(found[0], ("n00".to_string(), 11));
    assert_eq!(found[9], ("n09".to_string(), 2));
    assert_eq!(names(&index.search("n1")), vec!["n10", "n11"]);
}

#[test]
fn an_empty_index_finds_nothing() {
    let index = NameIndex::new();
    assert_eq!(index.len(), 0);
    assert!(index.get_all().is_empty());
    assert!(index.search_prefix("", 10).is_empty());
    assert_eq!(index.lookup_id(""), None);
    assert_eq!(index.lookup_name(0), None);
}
