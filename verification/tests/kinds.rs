use bug_graph::kinds::{EdgeKind, TestStatus, VertexKind};

#[test]
fn each_kind_has_its_text() {
    assert_eq!(VertexKind::Test.as_str(), "test");
    assert_eq!(VertexKind::NamedSet.as_str(), "set");
    assert_eq!(VertexKind::TestResult.as_str(), "result");
    assert_eq!(EdgeKind::Passed.as_str(), "passed");
    assert_eq!(EdgeKind::Failed.as_str(), "failed");
    assert_eq!(EdgeKind::IsIn.as_str(), "is_in");
}

#[test]
fn a_text_names_at_most_one_vertex_kind() {
    for kind in [VertexKind::Test, VertexKind::NamedSet, VertexKind::TestResult] {
        assert_eq!(VertexKind::parse(kind.as_str()), Some(kind));
    }
    assert_eq!(VertexKind::parse("tests"), None);
    assert_eq!(VertexKind::parse(""), None);
    assert_eq!(VertexKind::parse("Set"), None);
    assert_eq!(VertexKind::parse("passed"), None);
}

#[test]
fn a_verdict_is_recorded_by_its_edge() {
    assert_eq!(TestStatus::Pass.edge_kind(), EdgeKind::Passed);
    assert_eq!(TestStatus::Fail.edge_kind(), EdgeKind::Failed);
}

#[test]
fn only_pass_is_a_pass() {
    assert_eq!(TestStatus::from_text("pass"), TestStatus::Pass);
    assert_eq!(TestStatus::from_text("fail"), TestStatus::Fail);
    assert_eq!(TestStatus::from_text("Pass"), TestStatus::Fail);
    assert_eq!(TestStatus::from_text("passed"), TestStatus::Fail);
    assert_eq!(TestStatus::from_text(""), TestStatus::Fail);
}
