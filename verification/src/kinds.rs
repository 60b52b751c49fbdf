//! The kinds of vertices and edges that the repository keeps in its graph,
//! and the text under which the graph store knows each.

use vstd::prelude::*;

use crate::names::same;
use crate::store::identifier;

verus! {

/// What a vertex stands for.
#[derive(Clone, Copy, Debug, PartialEq, Eq, Structural)]
pub enum VertexKind {
    /// A test case. Named.
    Test,
    /// A set of tests, of sets or of results: a level of a name, or a
    /// property. Named.
    NamedSet,
    /// One recorded execution of a test. Never named.
    TestResult,
}

/// What an edge says of its source and its target.
#[derive(Clone, Copy, Debug, PartialEq, Eq, Structural)]
pub enum EdgeKind {
    /// From a test to a result: that execution passed.
    Passed,
    /// From a test to a result: that execution failed.
    Failed,
    /// From a named vertex to the set one level up, or from a result to a
    /// property it was recorded under.
    IsIn,
}

/// The verdict of one execution of a test.
#[derive(Clone, Copy, Debug, PartialEq, Eq, Structural)]
pub enum TestStatus {
    Pass,
    Fail,
}

impl VertexKind {
    /// The text under which the graph store knows the kind.
    pub open spec fn text(self) -> Seq<char> {
        match self {
            VertexKind::Test => "test"@,
            VertexKind::NamedSet => "set"@,
            VertexKind::TestResult => "result"@,
        }
    }

    /// The kind that `text` names.
    pub open spec fn of_text(text: Seq<char>) -> Option<VertexKind> {
        if text == VertexKind::Test.text() {
            Some(VertexKind::Test)
        } else if text == VertexKind::NamedSet.text() {
            Some(VertexKind::NamedSet)
        } else if text == VertexKind::TestResult.text() {
            Some(VertexKind::TestResult)
        } else {
            None
        }
    }

    /// No two kinds share a text.
    pub proof fn lemma_texts_differ()
        ensures
            forall|a: VertexKind, b: VertexKind| a.text() == b.text() ==> a == b,
            forall|a: VertexKind| #[trigger] VertexKind::of_text(a.text()) == Some(a),
    {
        reveal_strlit("test");
        reveal_strlit("set");
        reveal_strlit("result");
        assert("test"@.len() == 4 && "set"@.len() == 3 && "result"@.len() == 6);
    }

    pub fn as_str(self) -> (text: &'static str)
        ensures
            text@ == self.text(),
    {
        match self {
            VertexKind::Test => "test",
            VertexKind::NamedSet => "set",
            VertexKind::TestResult => "result",
        }
    }

    /// The kind that `text` names, if it names one.
    pub fn parse(text: &str) -> (kind: Option<VertexKind>)
        ensures
            kind == VertexKind::of_text(text@),
    {
        if same(text, "test") {
            Some(VertexKind::Test)
        } else if same(text, "set") {
            Some(VertexKind::NamedSet)
        } else if same(text, "result") {
            Some(VertexKind::TestResult)
        } else {
            None
        }
    }
}

impl EdgeKind {
    /// The text under which the graph store knows the kind.
    pub open spec fn text(self) -> Seq<char> {
        match self {
            EdgeKind::Passed => "passed"@,
            EdgeKind::Failed => "failed"@,
            EdgeKind::IsIn => "is_in"@,
        }
    }

    /// No two kinds share a text.
    pub proof fn lemma_texts_differ()
        ensures
            forall|a: EdgeKind, b: EdgeKind| a.text() == b.text() ==> a == b,
    {
        reveal_strlit("passed");
        reveal_strlit("failed");
        reveal_strlit("is_in");
        assert("passed"@[0] == 'p' && "failed"@[0] == 'f' && "is_in"@.len() == 5 && "passed"@.len()
            == 6 && "failed"@.len() == 6);
    }

    /// The graph store takes the text of every kind.
    pub proof fn lemma_texts_taken()
        ensures
            forall|a: EdgeKind| identifier(#[trigger] a.text()),
    {
        reveal_strlit("passed");
        reveal_strlit("failed");
        reveal_strlit("is_in");
        assert(identifier("passed"@));
        assert(identifier("failed"@));
        assert(identifier("is_in"@));
    }

    pub fn as_str(self) -> (text: &'static str)
        ensures
            text@ == self.text(),
    {
        match self {
            EdgeKind::Passed => "passed",
            EdgeKind::Failed => "failed",
            EdgeKind::IsIn => "is_in",
        }
    }
}

impl TestStatus {
    /// The kind of the edge that records the verdict.
    pub open spec fn edge(self) -> EdgeKind {
        match self {
            TestStatus::Pass => EdgeKind::Passed,
            TestStatus::Fail => EdgeKind::Failed,
        }
    }

    pub fn edge_kind(self) -> (kind: EdgeKind)
        ensures
            kind == self.edge(),
    {
        match self {
            TestStatus::Pass => EdgeKind::Passed,
            TestStatus::Fail => EdgeKind::Failed,
        }
    }

    /// The verdict that a status text gives: a pass for `pass`, a failure
    /// for anything else.
    pub fn from_text(text: &str) -> (status: TestStatus)
        ensures
            status == if text@ == "pass"@ {
                TestStatus::Pass
            } else {
                TestStatus::Fail
            },
    {
        if same(text, "pass") {
            TestStatus::Pass
        } else {
            TestStatus::Fail
        }
    }
}

} // verus!
