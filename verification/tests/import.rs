use bug_graph::import::{commands, environment_properties, make_tag, new_result, Batch, BatchResult};
use bug_graph::kinds::TestStatus;

fn fields(list: &[(&str, &str)]) -> Vec<(String, String)> {
    list.iter().map(|(key, value)| (key.to_string(), value.to_string())).collect()
}

fn batch() -> Batch {
    Batch {
        product: "productA".to_string(),
        revision: "rev1".to_string(),
        environment: fields(&[("arch", "\"x86_64\""), ("cores", "4")]),
        results: vec![
            BatchResult {
                test_fqn: "suite1:caseA".to_string(),
                status: "pass".to_string(),
                test: fields(&[("duration", "1.5"), ("kind", "\"smoke\""), ("log", "\"...\"")]),
            },
            BatchResult {
                test_fqn: "suite1:caseB".to_string(),
                status: "fail".to_string(),
                test: fields(&[]),
            },
            BatchResult {
                test_fqn: "suite1:caseC".to_string(),
                status: "skipped".to_string(),
                test: fields(&[("logs", "1"), ("a", "b")]),
            },
        ],
    }
}

#[test]
fn a_tag_joins_its_parts_with_colons() {
    assert_eq!(make_tag("environment", "arch", "x86_64"), "environment:arch:x86_64");
    assert_eq!(make_tag("test", "", ""), "test::");
}

#[test]
fn the_environment_starts_with_the_product() {
    assert_eq!(
        environment_properties(&batch()),
        vec!["environment:product:productA:rev1", "environment:arch:\"x86_64\"", "environment:cores:4"]
    );
}

#[test]
fn a_batch_amounts_to_one_recording_for_each_result() {
    let msgs = commands(&batch());
    assert_eq!(msgs.len(), 3);
    let shared = ["environment:product:productA:rev1", "environment:arch:\"x86_64\"", "environment:cores:4"];

    assert_eq!(msgs[0].test_fqn, "suite1:caseA");
    assert_eq!(msgs[0].status, TestStatus::Pass);
    assert_eq!(msgs[0].properties[..3], shared);
    assert_eq!(msgs[0].properties[3..], ["test:kind:\"smoke\""]);

    assert_eq!(msgs[1].test_fqn, "suite1:caseB");
    assert_eq!(msgs[1].status, TestStatus::Fail);
    assert_eq!(msgs[1].properties, shared);

    assert_eq!(msgs[2].status, TestStatus::Fail);
    assert_eq!(msgs[2].properties[3..], ["test:logs:1", "test:a:b"]);
}

#[test]
fn a_recording_leaves_out_the_log_and_the_duration() {
    let result = BatchResult {
        test_fqn: "t".to_string(),
        status: "pass".to_string(),
        test: fields(&[("log", "x"), ("duration", "y"), ("Log", "z")]),
    };
    let msg = new_result(&vec!["env".to_string()], &result);
    assert_eq!(msg.properties, vec!["env", "test:Log:z"]);
    assert_eq!(msg.test_fqn, "t");
    assert_eq!(msg.status, TestStatus::Pass);
}

#[test]
fn an_empty_batch_amounts_to_nothing() {
    let mut empty = batch();
    empty.results.clear();
    assert!(commands(&empty).is_empty());
}
