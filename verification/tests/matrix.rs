use bug_graph::matrix::{aggregate, Outcome};
use bug_graph::protocol::{ResultInMatrix, VertInfo};

fn tag(id: u128) -> VertInfo {
    VertInfo(format!("prop:{}", id), id)
}

fn outcome(result: u128, passed: bool, properties: &[u128]) -> Outcome {
    Outcome { result, passed, properties: properties.iter().map(|p| tag(*p)).collect() }
}

fn tests(count: u128) -> Vec<VertInfo> {
    (0..count).map(|i| VertInfo(format!("t{}", i), 1000 + i)).collect()
}

fn cell(test_case: u32, passes: u32, fails: u32) -> ResultInMatrix {
    ResultInMatrix { test_case, passes, fails }
}

#[test]
fn nothing_observed_gives_no_rows() {
    let matrix = aggregate(tests(0), &vec![]);
    assert!(matrix.test_cases.is_empty());
    assert!(matrix.results.is_empty());
    let matrix = aggregate(tests(2), &vec![vec![], vec![outcome(1, true, &[])]]);
    assert_eq!(matrix.test_cases.len(), 2);
    assert!(matrix.results.is_empty());
}

#[test]
fn cells_count_passes_and_failures_by_property() {
    let observed = vec![
        vec![outcome(1, true, &[7, 8]), outcome(2, false, &[8]), outcome(3, true, &[8])],
        vec![outcome(4, false, &[9])],
        vec![outcome(5, true, &[7]), outcome(6, false, &[7, 9])],
    ];
    let matrix = aggregate(tests(3), &observed);
    let rows: Vec<(u128, &str, &Vec<ResultInMatrix>)> =
        matrix.results.iter().map(|(p, cells)| (p.1, p.0.as_str(), cells)).collect();
    assert_eq!(
        rows,
        vec![
            (7, "prop:7", &vec![cell(0, 1, 0), cell(2, 1, 1)]),
            (8, "prop:8", &vec![cell(0, 2, 1)]),
            (9, "prop:9", &vec![cell(1, 0, 1), cell(2, 0, 1)]),
        ]
    );
    assert_eq!(matrix.test_cases.len(), 3);
    assert_eq!(matrix.test_cases[2].0, "t2");
}

#[test]
fn rows_come_in_the_order_of_first_occurrence() {
    let observed = vec![vec![outcome(1, true, &[30, 10])], vec![outcome(2, true, &[20, 10, 30])]];
    let matrix = aggregate(tests(2), &observed);
    let order: Vec<u128> = matrix.results.iter().map(|(p, _)| p.1).collect();
    assert_eq!(order, vec![30, 10, 20]);
    assert_eq!(matrix.results[2].1, vec![cell(1, 1, 0)]);
}

#[test]
fn a_row_has_no_cell_for_a_test_without_its_property() {
    let observed = vec![
        vec![outcome(1, true, &[5])],
        vec![outcome(2, true, &[6])],
        vec![],
        vec![outcome(3, false, &[5])],
    ];
    let matrix = aggregate(tests(4), &observed);
    assert_eq!(matrix.results[0].1, vec![cell(0, 1, 0), cell(3, 0, 1)]);
    assert_eq!(matrix.results[1].1, vec![cell(1, 1, 0)]);
    for (_, cells) in &matrix.results {
        assert!(cells.windows(2).all(|w| w[0].test_case < w[1].test_case));
    }
}

#[test]
fn a_property_named_twice_counts_twice() {
    let observed = vec![vec![outcome(1, true, &[5, 5]), outcome(2, false, &[5])]];
    let matrix = aggregate(tests(1), &observed);
    assert_eq!(matrix.results.len(), 1);
    assert_eq!(matrix.results[0].1, vec![cell(0, 2, 1)]);
}

#[test]
fn a_row_is_labelled_by_the_first_tagging() {
    let first = Outcome { result: 1, passed: true, properties: vec![VertInfo("first".to_string(), 5)] };
    let second = Outcome { result: 2, passed: true, properties: vec![VertInfo("second".to_string(), 5)] };
    let matrix = aggregate(tests(1), &vec![vec![first, second]]);
    assert_eq!(matrix.results.len(), 1);
    assert_eq!(matrix.results[0].0 .0, "first");
    assert_eq!(matrix.results[0].1, vec![cell(0, 2, 0)]);
}
