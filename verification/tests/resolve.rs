use bug_graph::name_index::NameIndex;
use bug_graph::protocol::VertInfo;
use bug_graph::resolve::{named_among, sift, verdicts};

fn found(list: &[(u128, &str)]) -> Vec<(u128, String)> {
    list.iter().map(|(id, kind)| (*id, kind.to_string())).collect()
}

fn index() -> NameIndex {
    let mut index = NameIndex::new();
    for (name, id) in [("a", 1), ("b", 2), ("c", 3)] {
        index.insert(name.to_string(), id).unwrap();
    }
    index
}

fn entries(list: &[VertInfo]) -> Vec<(&str, u128)> {
    list.iter().map(|v| (v.0.as_str(), v.1)).collect()
}

#[test]
fn only_named_vertices_are_resolved() {
    let index = index();
    let named = named_among(&index, &found(&[(3, "set"), (9, "result"), (1, "test"), (3, "set")]));
    assert_eq!(entries(&named), vec![("c", 3), ("a", 1), ("c", 3)]);
    assert!(named_among(&index, &found(&[])).is_empty());
    assert!(named_among(&index, &found(&[(7, "test")])).is_empty());
}

#[test]
fn a_frontier_parts_into_tests_and_sets() {
    let index = index();
    let mut tests = vec![VertInfo("z".to_string(), 26)];
    let frontier = found(&[(2, "set"), (1, "test"), (9, "result"), (8, "test"), (3, "set"), (7, "other")]);
    let sets = sift(&index, &frontier, &mut tests, 100);
    assert_eq!(sets, vec![2, 3]);
    assert_eq!(entries(&tests), vec![("z", 26), ("a", 1), ("", 8)]);
}

#[test]
fn sifting_stops_adding_tests_at_the_limit() {
    let index = index();
    let mut tests = Vec::new();
    let frontier = found(&[(1, "test"), (2, "test"), (4, "set"), (3, "test"), (5, "set")]);
    let sets = sift(&index, &frontier, &mut tests, 2);
    assert_eq!(sets, vec![4, 5]);
    assert_eq!(entries(&tests), vec![("a", 1), ("b", 2)]);
    let sets = sift(&index, &frontier, &mut tests, 2);
    assert_eq!(sets, vec![4, 5]);
    assert_eq!(tests.len(), 2);
}

#[test]
fn passes_come_before_failures() {
    let all = verdicts(&found(&[(5, "result"), (7, "result")]), &found(&[(6, "result")]));
    assert_eq!(all, vec![(5, true), (7, true), (6, false)]);
    assert!(verdicts(&found(&[]), &found(&[])).is_empty());
}
