use bug_graph::kinds::{EdgeKind, TestStatus, VertexKind};
use bug_graph::protocol::{ClientServer, ResultInMatrix, ResultMatrix, ServerClient};
use bug_graph::queries::or_nothing;
use bug_graph::repo::{GetResultMatrix, GetSetVerts, NewResult, Repo, RepoError, Search};

fn record(repo: &mut Repo, test_fqn: &str, status: TestStatus, properties: &[&str]) -> u128 {
    let msg = NewResult {
        test_fqn: test_fqn.to_string(),
        status,
        properties: properties.iter().map(|p| p.to_string()).collect(),
    };
    repo.record_result(&msg).expect("the in-memory store takes every result")
}

fn id(repo: &Repo, name: &str) -> u128 {
    repo.lookup_id(name).expect("the name is interned")
}

fn names(listed: &[(String, u128)]) -> Vec<&str> {
    listed.iter().map(|(name, _)| name.as_str()).collect()
}

fn row<'a>(matrix: &'a ResultMatrix, property: &str) -> &'a Vec<ResultInMatrix> {
    let found = matrix.results.iter().find(|(info, _)| info.0 == property);
    &found.expect("the property has a row").1
}

fn cell(test_case: u32, passes: u32, fails: u32) -> ResultInMatrix {
    ResultInMatrix { test_case, passes, fails }
}

#[test]
fn a_new_repository_is_empty() {
    let repo = Repo::new();
    assert!(repo.list_children(&GetSetVerts(None)).is_empty());
    assert!(repo.search(&Search(String::new())).is_empty());
    assert_eq!(repo.lookup_id("a"), None);
    let repo = Repo::default();
    assert!(repo.list_children(&GetSetVerts(None)).is_empty());
}

#[test]
fn interning_twice_gives_the_same_vertex() {
    let mut repo = Repo::new();
    let first = repo.intern_fq_name(VertexKind::Test, "suite:case").unwrap();
    let all = repo.list_children(&GetSetVerts(None));
    let second = repo.intern_fq_name(VertexKind::Test, "suite:case").unwrap();
    assert_eq!(first, second);
    assert_eq!(repo.list_children(&GetSetVerts(None)), all);
    assert_eq!(names(&all), vec!["suite", "suite:case"]);
    // The kind asked for the second time does not matter either.
    let third = repo.intern_fq_name(VertexKind::NamedSet, "suite:case").unwrap();
    assert_eq!(first, third);
    assert_eq!(repo.list_children(&GetSetVerts(None)), all);
}

#[test]
fn interning_reuses_the_ancestors() {
    let mut repo = Repo::new();
    let one = repo.intern_fq_name(VertexKind::Test, "a:b:one").unwrap();
    let a = id(&repo, "a");
    let ab = id(&repo, "a:b");
    let two = repo.intern_fq_name(VertexKind::Test, "a:b:two").unwrap();
    assert_ne!(one, two);
    assert_eq!(id(&repo, "a"), a);
    assert_eq!(id(&repo, "a:b"), ab);
    let all = repo.list_children(&GetSetVerts(None));
    assert_eq!(names(&all), vec!["a", "a:b", "a:b:one", "a:b:two"]);
}

#[test]
fn interning_links_each_level_to_the_one_above() {
    let mut repo = Repo::new();
    let abc = repo.intern_fq_name(VertexKind::NamedSet, "a:b:c").unwrap();
    let a = id(&repo, "a");
    let ab = id(&repo, "a:b");
    assert_eq!(
        repo.list_children(&GetSetVerts(Some(a))),
        vec![("a:b".to_string(), ab)]
    );
    assert_eq!(
        repo.list_children(&GetSetVerts(Some(ab))),
        vec![("a:b:c".to_string(), abc)]
    );
    assert!(repo.list_children(&GetSetVerts(Some(abc))).is_empty());
}

#[test]
fn names_and_vertices_are_looked_up_both_ways() {
    let mut repo = Repo::new();
    let v = repo.intern_fq_name(VertexKind::Test, "x:y").unwrap();
    assert_eq!(repo.lookup_id("x:y"), Some(v));
    assert_eq!(repo.lookup_name(v), Some(&"x:y".to_string()));
    assert_eq!(repo.lookup_id("x:"), None);
    assert_eq!(repo.lookup_name(v.wrapping_add(1)), None);
}

#[test]
fn empty_levels_are_names_too() {
    let mut repo = Repo::new();
    repo.intern_fq_name(VertexKind::Test, ":a::b").unwrap();
    let all = repo.list_children(&GetSetVerts(None));
    assert_eq!(names(&all), vec!["", ":a", ":a:", ":a::b"]);
    let root = id(&repo, "");
    assert_eq!(names(&repo.list_children(&GetSetVerts(Some(root)))), vec![":a"]);
}

#[test]
fn children_come_in_the_order_of_their_vertices() {
    let mut repo = Repo::new();
    for leaf in ["s:c", "s:a", "s:b"] {
        repo.intern_fq_name(VertexKind::Test, leaf).unwrap();
    }
    let listed = repo.list_children(&GetSetVerts(Some(id(&repo, "s"))));
    assert_eq!(listed.len(), 3);
    assert!(listed.windows(2).all(|w| w[0].1 < w[1].1));
    let mut found = names(&listed);
    found.sort();
    assert_eq!(found, vec!["s:a", "s:b", "s:c"]);
    assert_eq!(
        names(&bug_graph::queries::pairs(repo.get_adjacent(id(&repo, "s")).unwrap())),
        names(&listed)
    );
}

#[test]
fn a_result_is_no_child_with_a_name() {
    let mut repo = Repo::new();
    let result = record(&mut repo, "suite:case", TestStatus::Pass, &["env:linux"]);
    // The result is in `env:linux`, but it has no name.
    let property = id(&repo, "env:linux");
    assert!(repo.list_children(&GetSetVerts(Some(property))).is_empty());
    assert_eq!(repo.lookup_name(result), None);
    assert_eq!(names(&repo.list_children(&GetSetVerts(Some(id(&repo, "env"))))), vec!["env:linux"]);
}

#[test]
fn an_unknown_root_has_no_children_and_an_empty_matrix() {
    let mut repo = Repo::new();
    record(&mut repo, "suite:case", TestStatus::Pass, &["env:linux"]);
    assert!(repo.list_children(&GetSetVerts(Some(7))).is_empty());
    let matrix = repo.compute_result_matrix(&GetResultMatrix(7));
    assert!(matrix.test_cases.is_empty());
    assert!(matrix.results.is_empty());
    assert!(repo.get_inner_tests(7).unwrap().is_empty());
}

#[test]
fn search_finds_names_by_prefix_only() {
    let mut repo = Repo::new();
    for name in ["ab", "abc", "b", "a", "aa:x"] {
        repo.intern_fq_name(VertexKind::NamedSet, name).unwrap();
    }
    let found = repo.search(&Search("a".to_string()));
    assert_eq!(names(&found), vec!["a", "aa", "aa:x", "ab", "abc"]);
    let found = repo.search(&Search("ab".to_string()));
    assert_eq!(names(&found), vec!["ab", "abc"]);
    assert_eq!(found[0].1, id(&repo, "ab"));
    // A name that only comes later in the order is no match.
    assert!(repo.search(&Search("aab".to_string())).is_empty());
    assert!(repo.search(&Search("c".to_string())).is_empty());
}

#[test]
fn search_returns_the_first_ten_in_order() {
    let mut repo = Repo::new();
    for i in 0..25 {
        repo.intern_fq_name(VertexKind::Test, &format!("t{:02}", 24 - i)).unwrap();
    }
    repo.intern_fq_name(VertexKind::Test, "s").unwrap();
    let found = repo.search(&Search("t".to_string()));
    let expected: Vec<String> = (0..10).map(|i| format!("t{:02}", i)).collect();
    assert_eq!(found.len(), 10);
    assert!(found.iter().map(|(n, _)| n).eq(expected.iter()));
    assert!(found.iter().all(|(name, _)| name.starts_with("t")));
    assert!(found.windows(2).all(|w| w[0].0 < w[1].0));
    assert_eq!(repo.search(&Search("t1".to_string())).len(), 10);
    assert_eq!(repo.search(&Search("t2".to_string())).len(), 5);
    assert_eq!(repo.search(&Search(String::new())).len(), 10);
}

#[test]
fn every_recording_makes_a_new_result() {
    let mut repo = Repo::new();
    let first = record(&mut repo, "suite:case", TestStatus::Pass, &["env:linux"]);
    let all = repo.list_children(&GetSetVerts(None));
    let second = record(&mut repo, "suite:case", TestStatus::Pass, &["env:linux"]);
    assert_ne!(first, second);
    assert_eq!(repo.list_children(&GetSetVerts(None)), all);
    let test = id(&repo, "suite:case");
    let mut results = repo.get_test_results(test).unwrap();
    results.sort();
    let mut expected = vec![(first, true), (second, true)];
    expected.sort();
    assert_eq!(results, expected);
}

#[test]
fn a_result_is_linked_to_its_test_and_its_properties() {
    let mut repo = Repo::new();
    let passed = record(&mut repo, "s:t", TestStatus::Pass, &["env:a", "rev:1"]);
    let failed = record(&mut repo, "s:t", TestStatus::Fail, &[]);
    let test = id(&repo, "s:t");
    assert_eq!(repo.get_test_results(test).unwrap(), vec![(passed, true), (failed, false)]);
    let properties = repo.get_test_result_props(passed).unwrap();
    let mut found: Vec<(&str, u128)> = properties.iter().map(|p| (p.0.as_str(), p.1)).collect();
    found.sort();
    assert_eq!(found, vec![("env:a", id(&repo, "env:a")), ("rev:1", id(&repo, "rev:1"))]);
    assert!(properties.windows(2).all(|w| w[0].1 < w[1].1));
    assert!(repo.get_test_result_props(failed).unwrap().is_empty());
    assert!(repo.get_test_results(id(&repo, "s")).unwrap().is_empty());
    let column = repo.get_outcomes(test);
    assert_eq!(column.len(), 2);
    assert_eq!((column[0].result, column[0].passed, column[0].properties.len()), (passed, true, 2));
    assert_eq!((column[1].result, column[1].passed, column[1].properties.len()), (failed, false, 0));
}

#[test]
fn what_is_in_a_set_comes_with_its_kind() {
    let mut repo = Repo::new();
    record(&mut repo, "s:t", TestStatus::Pass, &["s:inner"]);
    let found = repo.get_outer_sets(&vec![id(&repo, "s")]).unwrap();
    let mut listed: Vec<(u128, &str)> = found.iter().map(|(v, kind)| (*v, kind.as_str())).collect();
    listed.sort();
    let mut expected = vec![(id(&repo, "s:t"), "test"), (id(&repo, "s:inner"), "set")];
    expected.sort();
    assert_eq!(listed, expected);
    // A result is in the set it was recorded under, as a vertex of its own kind.
    let found = repo.get_outer_sets(&vec![id(&repo, "s:inner")]).unwrap();
    assert_eq!(found.len(), 1);
    assert_eq!(found[0].1, "result");
}

/// The column of the test `name`.
fn column(matrix: &ResultMatrix, name: &str) -> u32 {
    let place = matrix.test_cases.iter().position(|t| t.0 == name);
    place.expect("the test has a column") as u32
}

#[test]
fn result_round_trip() {
    let mut repo = Repo::new();
    record(&mut repo, "suite1:caseA", TestStatus::Pass, &["env:productA:rev1"]);
    record(&mut repo, "suite1:caseA", TestStatus::Fail, &["env:productA:rev2"]);
    record(&mut repo, "suite1:caseB", TestStatus::Pass, &["env:productA:rev1"]);
    let matrix = repo.compute_result_matrix(&GetResultMatrix(id(&repo, "suite1")));
    // The tests of a set come in the order of the identifiers that the
    // graph store drew for their vertices.
    let mut expected =
        vec![("suite1:caseA", id(&repo, "suite1:caseA")), ("suite1:caseB", id(&repo, "suite1:caseB"))];
    expected.sort_by_key(|(_, vertex)| *vertex);
    let columns: Vec<(&str, u128)> =
        matrix.test_cases.iter().map(|t| (t.0.as_str(), t.1)).collect();
    assert_eq!(columns, expected);
    let (a, b) = (column(&matrix, "suite1:caseA"), column(&matrix, "suite1:caseB"));
    assert_eq!((a.min(b), a.max(b)), (0, 1));
    assert_eq!(matrix.results.len(), 2);
    let mut rev1 = vec![cell(a, 1, 0), cell(b, 1, 0)];
    rev1.sort_by_key(|c| c.test_case);
    assert_eq!(row(&matrix, "env:productA:rev1"), &rev1);
    assert_eq!(row(&matrix, "env:productA:rev2"), &vec![cell(a, 0, 1)]);
    for (property, _) in &matrix.results {
        assert_eq!(repo.lookup_id(&property.0), Some(property.1));
    }
}

#[test]
fn the_matrix_of_a_test_has_one_column() {
    let mut repo = Repo::new();
    record(&mut repo, "suite:case", TestStatus::Pass, &["env:a"]);
    record(&mut repo, "suite:case", TestStatus::Pass, &["env:a", "env:b"]);
    record(&mut repo, "suite:case", TestStatus::Fail, &["env:b"]);
    record(&mut repo, "suite:other", TestStatus::Fail, &["env:a"]);
    let matrix = repo.compute_result_matrix(&GetResultMatrix(id(&repo, "suite:case")));
    assert_eq!(matrix.test_cases.len(), 1);
    assert_eq!(matrix.test_cases[0].0, "suite:case");
    assert_eq!(row(&matrix, "env:a"), &vec![cell(0, 2, 0)]);
    assert_eq!(row(&matrix, "env:b"), &vec![cell(0, 1, 1)]);
    assert_eq!(matrix.results.len(), 2);
}

#[test]
fn the_matrix_of_a_property_has_no_columns() {
    let mut repo = Repo::new();
    record(&mut repo, "suite:case", TestStatus::Pass, &["env:a"]);
    // Beneath a property are results, which are neither tests nor sets.
    let matrix = repo.compute_result_matrix(&GetResultMatrix(id(&repo, "env:a")));
    assert!(matrix.test_cases.is_empty());
    assert!(matrix.results.is_empty());
}

#[test]
fn rows_hold_their_cells_in_column_order() {
    let mut repo = Repo::new();
    let tests = ["s:t0", "s:t1", "s:t2", "s:t3", "s:t4"];
    for (i, test) in tests.iter().enumerate() {
        // Record the later properties first, and not every test under each.
        for p in (0..4).rev() {
            if (i + p) % 3 != 0 {
                let status = if (i + p) % 2 == 0 { TestStatus::Pass } else { TestStatus::Fail };
                record(&mut repo, test, status, &[&format!("prop:{}", p), "all"]);
            }
        }
    }
    let matrix = repo.compute_result_matrix(&GetResultMatrix(id(&repo, "s")));
    assert_eq!(matrix.test_cases.len(), 5);
    assert_eq!(matrix.results.len(), 5);
    for (_, cells) in &matrix.results {
        assert!(!cells.is_empty());
        assert!(cells.windows(2).all(|w| w[0].test_case < w[1].test_case));
        assert!(cells.iter().all(|c| (c.test_case as usize) < matrix.test_cases.len()));
        assert!(cells.iter().all(|c| c.passes + c.fails > 0));
    }
    let mut properties: Vec<u128> = matrix.results.iter().map(|(p, _)| p.1).collect();
    properties.sort();
    properties.dedup();
    assert_eq!(properties.len(), 5);
    let total: u32 = row(&matrix, "all").iter().map(|c| c.passes + c.fails).sum();
    assert_eq!(total, 13);
}

#[test]
fn the_descent_stops_after_ten_levels() {
    let mut repo = Repo::new();
    let mut path = String::from("root");
    let mut expected = Vec::new();
    for level in 1..=20 {
        // One test on each level beneath `root`, and one set to go further down.
        let test = format!("{}:t{}", path, level);
        record(&mut repo, &test, TestStatus::Pass, &["env"]);
        if level <= 9 {
            expected.push(test);
        }
        path = format!("{}:l{}", path, level);
    }
    let matrix = repo.compute_result_matrix(&GetResultMatrix(id(&repo, "root")));
    let found: Vec<String> = matrix.test_cases.iter().map(|t| t.0.clone()).collect();
    assert_eq!(found, expected);
    assert_eq!(row(&matrix, "env").len(), 9);
    // From two levels further down two more levels are in reach.
    let below = repo.get_inner_tests(id(&repo, "root:l1:l2")).unwrap();
    assert_eq!(below.len(), 9);
    assert_eq!(below[0].0, "root:l1:l2:t3");
    assert_eq!(below[8].0, "root:l1:l2:l3:l4:l5:l6:l7:l8:l9:l10:t11");
}

#[test]
fn a_flat_set_of_150_tests_yields_100_test_cases() {
    let mut repo = Repo::new();
    for i in 0..150 {
        record(&mut repo, &format!("root:t{:03}", i), TestStatus::Pass, &["env"]);
    }
    let matrix = repo.compute_result_matrix(&GetResultMatrix(id(&repo, "root")));
    assert_eq!(matrix.test_cases.len(), 100);
    let mut columns: Vec<u128> = matrix.test_cases.iter().map(|t| t.1).collect();
    columns.sort();
    columns.dedup();
    assert_eq!(columns.len(), 100);
    assert_eq!(row(&matrix, "env").len(), 100);
    assert!(matrix.test_cases.iter().all(|t| t.0.starts_with("root:t")));
}

#[test]
fn the_hundredth_test_ends_the_descent_within_a_level() {
    let mut repo = Repo::new();
    for i in 0..60 {
        record(&mut repo, &format!("root:a:t{:02}", i), TestStatus::Pass, &[]);
        record(&mut repo, &format!("root:b:t{:02}", i), TestStatus::Fail, &[]);
    }
    let tests = repo.get_inner_tests(id(&repo, "root")).unwrap();
    assert_eq!(tests.len(), 100);
    let matrix = repo.compute_result_matrix(&GetResultMatrix(id(&repo, "root")));
    assert_eq!(matrix.test_cases.len(), 100);
    assert!(matrix.results.is_empty());
}

#[test]
fn at_most_500_passes_and_500_failures_are_counted() {
    let mut repo = Repo::new();
    for _ in 0..510 {
        record(&mut repo, "s:t", TestStatus::Pass, &["env"]);
    }
    for _ in 0..3 {
        record(&mut repo, "s:t", TestStatus::Fail, &["env"]);
    }
    let results = repo.get_test_results(id(&repo, "s:t")).unwrap();
    assert_eq!(results.len(), 503);
    assert_eq!(results.iter().filter(|r| r.1).count(), 500);
    let matrix = repo.compute_result_matrix(&GetResultMatrix(id(&repo, "s")));
    assert_eq!(row(&matrix, "env"), &vec![cell(0, 500, 3)]);
}

#[test]
fn a_test_that_is_a_set_as_well_keeps_its_first_kind() {
    let mut repo = Repo::new();
    record(&mut repo, "s:t", TestStatus::Pass, &[]);
    // `s:t` is a test already; the deeper test makes it a parent, not a set.
    record(&mut repo, "s:t:deeper", TestStatus::Pass, &[]);
    let tests = repo.get_inner_tests(id(&repo, "s")).unwrap();
    assert_eq!(tests.len(), 1);
    assert_eq!(tests[0].0, "s:t");
    assert_eq!(names(&repo.list_children(&GetSetVerts(Some(id(&repo, "s:t"))))), vec!["s:t:deeper"]);
}

#[test]
fn each_message_of_a_client_has_its_answer() {
    let mut repo = Repo::new();
    record(&mut repo, "suite:case", TestStatus::Fail, &["env:a"]);
    let suite = id(&repo, "suite");

    match repo.answer(&ClientServer::SetQuery(Some(suite))) {
        ServerClient::SetList(listed) => assert_eq!(names(&listed), vec!["suite:case"]),
        _ => panic!("a query of a set is answered by a list"),
    }
    match repo.answer(&ClientServer::SetQuery(None)) {
        ServerClient::SetList(listed) => {
            assert_eq!(names(&listed), vec!["env", "env:a", "suite", "suite:case"])
        }
        _ => panic!("a query of all sets is answered by a list"),
    }
    match repo.answer(&ClientServer::Search("su".to_string())) {
        ServerClient::Search(term, found) => {
            assert_eq!(term, "su");
            assert_eq!(names(&found), vec!["suite", "suite:case"]);
        }
        _ => panic!("a search is answered by what was found"),
    }
    match repo.answer(&ClientServer::ResultMatrix(suite)) {
        ServerClient::ResultMatrix(root, matrix) => {
            assert_eq!(root, suite);
            assert_eq!(matrix.test_cases.len(), 1);
            assert_eq!(row(&matrix, "env:a"), &vec![cell(0, 0, 1)]);
        }
        _ => panic!("a query of a matrix is answered by the matrix"),
    }
}

#[test]
fn two_recordings_for_different_tests_are_both_seen() {
    let mut repo = Repo::new();
    let first = record(&mut repo, "suite:one", TestStatus::Pass, &["env:a"]);
    let second = record(&mut repo, "suite:two", TestStatus::Fail, &["env:a"]);
    assert_ne!(first, second);
    assert_eq!(repo.get_test_results(id(&repo, "suite:one")).unwrap(), vec![(first, true)]);
    assert_eq!(repo.get_test_results(id(&repo, "suite:two")).unwrap(), vec![(second, false)]);
    let matrix = repo.compute_result_matrix(&GetResultMatrix(id(&repo, "suite")));
    let mut cells = vec![
        cell(column(&matrix, "suite:one"), 1, 0),
        cell(column(&matrix, "suite:two"), 0, 1),
    ];
    cells.sort_by_key(|c| c.test_case);
    assert_eq!(row(&matrix, "env:a"), &cells);
    assert_eq!(matrix.test_cases.len(), 2);
    assert_eq!(
        names(&repo.list_children(&GetSetVerts(None))),
        vec!["env", "env:a", "suite", "suite:one", "suite:two"]
    );
}

#[test]
fn at_most_a_thousand_children_are_listed() {
    let mut repo = Repo::new();
    for i in 0..1005 {
        repo.intern_fq_name(VertexKind::NamedSet, &format!("big:{}", i)).unwrap();
    }
    for i in 0..999 {
        repo.intern_fq_name(VertexKind::NamedSet, &format!("small:{}", i)).unwrap();
    }
    let listed = repo.list_children(&GetSetVerts(Some(id(&repo, "big"))));
    assert_eq!(listed.len(), 1000);
    assert!(listed.windows(2).all(|w| w[0].1 < w[1].1));
    assert!(listed.iter().all(|(name, _)| name.starts_with("big:")));
    assert_eq!(repo.list_children(&GetSetVerts(Some(id(&repo, "small")))).len(), 999);
}

#[test]
fn at_most_a_thousand_properties_are_listed() {
    let mut repo = Repo::new();
    let many: Vec<String> = (0..1003).map(|i| format!("p{}", i)).collect();
    let properties: Vec<&str> = many.iter().map(|p| p.as_str()).collect();
    let result = record(&mut repo, "t", TestStatus::Pass, &properties);
    assert_eq!(repo.get_test_result_props(result).unwrap().len(), 1000);
    let matrix = repo.compute_result_matrix(&GetResultMatrix(id(&repo, "t")));
    assert_eq!(matrix.results.len(), 1000);
    assert!(matrix.results.iter().all(|(_, cells)| cells == &vec![cell(0, 1, 0)]));
}

#[test]
fn a_property_that_is_given_twice_counts_once() {
    let mut repo = Repo::new();
    record(&mut repo, "t", TestStatus::Pass, &["env", "env"]);
    let matrix = repo.compute_result_matrix(&GetResultMatrix(id(&repo, "t")));
    assert_eq!(row(&matrix, "env"), &vec![cell(0, 1, 0)]);
}

#[test]
fn a_vertex_has_the_kind_it_was_made_with() {
    let mut repo = Repo::new();
    let result = record(&mut repo, "s:t", TestStatus::Pass, &["p"]);
    assert_eq!(repo.vertex_kind(id(&repo, "s:t")).unwrap(), Some("test".to_string()));
    assert_eq!(repo.vertex_kind(id(&repo, "s")).unwrap(), Some("set".to_string()));
    assert_eq!(repo.vertex_kind(id(&repo, "p")).unwrap(), Some("set".to_string()));
    assert_eq!(repo.vertex_kind(result).unwrap(), Some("result".to_string()));
    assert_eq!(repo.vertex_kind(5).unwrap(), None);
    assert_eq!(repo.index().len(), 3);
}

#[test]
fn a_fetch_hands_out_the_first_vertices_in_the_order_of_their_identifiers() {
    let mut repo = Repo::new();
    let mut made = Vec::new();
    for leaf in ["s:a", "s:b", "s:c", "s:d"] {
        made.push(repo.intern_fq_name(VertexKind::Test, leaf).unwrap());
    }
    record(&mut repo, "s:a", TestStatus::Pass, &["s"]);
    made.sort();
    let s = id(&repo, "s");
    let ids = |found: Vec<(u128, String)>| found.into_iter().map(|f| f.0).collect::<Vec<u128>>();
    let all = ids(repo.sources_of(s, EdgeKind::IsIn, 10).unwrap());
    assert_eq!(all.len(), 5);
    assert!(all.windows(2).all(|w| w[0] < w[1]));
    assert_eq!(ids(repo.sources_of(s, EdgeKind::IsIn, 2).unwrap()), all[..2]);
    assert_eq!(ids(repo.sources_of(s, EdgeKind::IsIn, 5).unwrap()), all);
    assert!(repo.sources_of(s, EdgeKind::IsIn, 0).unwrap().is_empty());
    assert!(repo.sources_of(s, EdgeKind::Passed, 10).unwrap().is_empty());
    assert!(repo.sources_of(9, EdgeKind::IsIn, 10).unwrap().is_empty());
    // The other way round there is one edge for each.
    for leaf in &made {
        assert_eq!(ids(repo.targets_of(*leaf, EdgeKind::IsIn, 10).unwrap()), vec![s]);
    }
    let kinds: Vec<String> =
        repo.sources_of(s, EdgeKind::IsIn, 10).unwrap().into_iter().map(|f| f.1).collect();
    assert_eq!(kinds.iter().filter(|k| k.as_str() == "test").count(), 4);
    assert_eq!(kinds.iter().filter(|k| k.as_str() == "result").count(), 1);
}

#[test]
fn a_level_is_filled_set_by_set() {
    let mut repo = Repo::new();
    for i in 0..70 {
        repo.intern_fq_name(VertexKind::Test, &format!("a:{}", i)).unwrap();
        repo.intern_fq_name(VertexKind::Test, &format!("b:{}", i)).unwrap();
    }
    let (a, b) = (id(&repo, "a"), id(&repo, "b"));
    let level = repo.get_outer_sets(&vec![a, b]).unwrap();
    assert_eq!(level.len(), 100);
    let in_a = |v: u128| repo.lookup_name(v).unwrap().starts_with("a:");
    assert!(level[..70].iter().all(|f| in_a(f.0)));
    assert!(level[70..].iter().all(|f| !in_a(f.0)));
    assert!(level[..70].windows(2).all(|w| w[0].0 < w[1].0));
    assert!(level[70..].windows(2).all(|w| w[0].0 < w[1].0));
    // The thirty of `b` are its first thirty.
    let first: Vec<u128> =
        repo.sources_of(b, EdgeKind::IsIn, 30).unwrap().into_iter().map(|f| f.0).collect();
    assert!(level[70..].iter().map(|f| f.0).eq(first.into_iter()));
    assert!(repo.get_outer_sets(&vec![]).unwrap().is_empty());
    assert_eq!(repo.get_outer_sets(&vec![a, a]).unwrap().len(), 100);
}

#[test]
fn a_failed_fetch_counts_as_an_empty_list() {
    assert_eq!(or_nothing(Ok(vec![(7u128, true), (9u128, false)])), vec![(7u128, true), (9u128, false)]);
    assert_eq!(or_nothing(Ok(Vec::<u128>::new())), Vec::<u128>::new());
    assert_eq!(or_nothing::<u128>(Err(RepoError::BackendFailure)), Vec::<u128>::new());
    assert_eq!(or_nothing::<String>(Err(RepoError::InvariantViolation)), Vec::<String>::new());
}

#[test]
fn the_outcomes_of_a_test_are_its_results_with_their_properties() {
    let mut repo = Repo::new();
    let first = record(&mut repo, "s:t", TestStatus::Pass, &["env:a", "env:b"]);
    let second = record(&mut repo, "s:t", TestStatus::Fail, &[]);
    let column = repo.get_outcomes(id(&repo, "s:t"));
    assert_eq!(column.len(), 2);
    let passed = column.iter().find(|o| o.result == first).expect("the pass is listed");
    assert!(passed.passed);
    let tags: Vec<&str> = passed.properties.iter().map(|p| p.0.as_str()).collect();
    assert_eq!(tags.len(), 2);
    assert!(tags.contains(&"env:a") && tags.contains(&"env:b"));
    let failed = column.iter().find(|o| o.result == second).expect("the failure is listed");
    assert!(!failed.passed);
    assert!(failed.properties.is_empty());
    assert!(repo.get_outcomes(id(&repo, "s")).is_empty());
    assert!(repo.get_outcomes(12345).is_empty());
}

#[test]
fn the_tests_of_a_descent_are_named_distinct_and_come_level_by_level() {
    let mut repo = Repo::new();
    for name in ["r:t1", "r:a:t2", "r:b:t3", "r:a:x:t4", "r:t5", "r:b:y:z:t6", "r:a:t7"] {
        record(&mut repo, name, TestStatus::Pass, &["env:one", "env:two"]);
    }
    let tests = repo.get_inner_tests(id(&repo, "r")).unwrap();
    assert_eq!(tests.len(), 7);
    for test in &tests {
        assert_eq!(repo.lookup_id(&test.0), Some(test.1));
        assert_eq!(repo.vertex_kind(test.1).unwrap().as_deref(), Some("test"));
    }
    let mut vertices: Vec<u128> = tests.iter().map(|t| t.1).collect();
    vertices.sort();
    vertices.dedup();
    assert_eq!(vertices.len(), 7);
    let depths: Vec<usize> = tests.iter().map(|t| t.0.matches(':').count()).collect();
    assert_eq!(depths, vec![1, 1, 2, 2, 2, 3, 4]);
}

#[test]
fn the_tests_of_a_flat_set_are_in_the_set() {
    let mut repo = Repo::new();
    for i in 0..150 {
        record(&mut repo, &format!("root:t{}", i), TestStatus::Pass, &[]);
    }
    let root = id(&repo, "root");
    let tests = repo.get_inner_tests(root).unwrap();
    assert_eq!(tests.len(), 100);
    let children: Vec<u128> =
        repo.sources_of(root, EdgeKind::IsIn, 1000).unwrap().into_iter().map(|f| f.0).collect();
    assert_eq!(children.len(), 150);
    // The hundred are the first hundred of the set, each once.
    assert!(tests.iter().map(|t| t.1).eq(children[..100].iter().copied()));
    assert!(tests.windows(2).all(|w| w[0].1 < w[1].1));
}

#[test]
fn a_test_is_not_descended_into() {
    let mut repo = Repo::new();
    record(&mut repo, "s:t", TestStatus::Pass, &["s:t:tag"]);
    let test = id(&repo, "s:t");
    let tests = repo.get_inner_tests(test).unwrap();
    assert_eq!(tests.len(), 1);
    assert_eq!((tests[0].0.as_str(), tests[0].1), ("s:t", test));
    assert_eq!(names(&repo.list_children(&GetSetVerts(Some(test)))), vec!["s:t:tag"]);
}

#[test]
fn every_test_and_every_set_has_a_name() {
    let mut repo = Repo::new();
    record(&mut repo, "a:b:c", TestStatus::Pass, &["p:q", "p"]);
    record(&mut repo, "a:d", TestStatus::Fail, &[]);
    for name in ["a", "a:b", "p"] {
        for found in repo.sources_of(id(&repo, name), EdgeKind::IsIn, 1000).unwrap() {
            let named = repo.lookup_name(found.0).is_some();
            assert_eq!(named, found.1 == "test" || found.1 == "set");
        }
    }
    assert_eq!(repo.index().len(), 6);
}

#[test]
fn the_fetches_of_a_vertex_that_is_not_there_are_empty() {
    let repo = Repo::new();
    assert!(repo.get_adjacent(7).unwrap().is_empty());
    assert!(repo.get_test_results(7).unwrap().is_empty());
    assert!(repo.get_test_result_props(7).unwrap().is_empty());
    assert!(repo.get_inner_tests(7).unwrap().is_empty());
    assert!(repo.get_outer_sets(&vec![7, 8]).unwrap().is_empty());
    assert_eq!(repo.vertex_kind(7).unwrap(), None);
    assert!(repo.sources_of(7, EdgeKind::Passed, 10).unwrap().is_empty());
    assert!(repo.targets_of(7, EdgeKind::Failed, 10).unwrap().is_empty());
}

#[test]
fn a_result_that_the_store_did_not_make_is_not_linked() {
    let mut repo = Repo::new();
    let test = repo.intern_fq_name(VertexKind::Test, "s:t").unwrap();
    let tag = repo.intern_fq_name(VertexKind::NamedSet, "env:a").unwrap();
    let recorded = repo.link_result(test, TestStatus::Pass, Err(indradb::Error::UuidTaken), &vec![tag]);
    assert_eq!(recorded, Err(RepoError::BackendFailure));
    assert!(repo.get_test_results(test).unwrap().is_empty());
    assert!(repo.sources_of(tag, EdgeKind::IsIn, 10).unwrap().is_empty());
    assert_eq!(repo.index().len(), 4);
}

#[test]
fn a_vertex_that_the_store_did_not_make_gets_no_name() {
    let mut repo = Repo::new();
    let up = repo.intern_fq_name(VertexKind::NamedSet, "s").unwrap();
    let interned =
        repo.enter_vertex(VertexKind::Test, "s:t", Some(up), Err(indradb::Error::UuidTaken));
    assert_eq!(interned, Err(RepoError::BackendFailure));
    assert_eq!(repo.lookup_id("s:t"), None);
    assert!(repo.get_adjacent(up).unwrap().is_empty());
    assert_eq!(repo.index().len(), 1);
    // The name can be interned afterwards.
    let test = repo.intern_fq_name(VertexKind::Test, "s:t").unwrap();
    assert_eq!(repo.lookup_id("s:t"), Some(test));
}

#[test]
fn a_recording_names_the_properties_before_it_makes_the_result() {
    let mut repo = Repo::new();
    let result = record(&mut repo, "s:t", TestStatus::Fail, &["env:a", "env:b", "env:a"]);
    let test = id(&repo, "s:t");
    assert_eq!(repo.get_test_results(test).unwrap(), vec![(result, false)]);
    let tags: Vec<String> =
        repo.get_test_result_props(result).unwrap().into_iter().map(|p| p.0).collect();
    let mut sorted = tags.clone();
    sorted.sort();
    assert_eq!(sorted, vec!["env:a", "env:b"]);
    assert_eq!(repo.vertex_kind(result).unwrap().as_deref(), Some("result"));
    assert_eq!(repo.lookup_name(result), None);
    assert_eq!(repo.index().len(), 5);
}

#[test]
fn the_default_repository_is_empty() {
    let repo = Repo::default();
    assert_eq!(repo.index().len(), 0);
    assert!(repo.list_children(&GetSetVerts(None)).is_empty());
    assert_eq!(repo.vertex_kind(0).unwrap(), None);
    assert!(repo.sources_of(0, EdgeKind::IsIn, 10).unwrap().is_empty());
    assert!(repo.targets_of(0, EdgeKind::Passed, 10).unwrap().is_empty());
}
