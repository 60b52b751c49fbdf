//! The read paths of the repository: what is in a vertex, which names start
//! with a term, which tests lie beneath a vertex, and the matrix of their
//! results.
//!
//! Every read is bounded: a fetch hands out at most as many vertices as its
//! limit allows, and what lies beyond is left out without notice. The
//! graph store answers every fetch; a read path is written to go on with
//! nothing in place of what a store would not give.

use vstd::prelude::*;
use vstd::seq_lib::seq_to_set_is_finite;
use vstd::set_lib::lemma_len_subset;

use crate::kinds::{EdgeKind, VertexKind};
use crate::matrix::{
    aggregate, column_tags, countable, lemma_no_tests, lemma_tags_bounded, matrix_of,
    rows_distinct, rows_in_order, Column, Outcome, OutcomeView,
};
use crate::name_index::{matching, sorted_by_name, Entry, SEARCH_LIMIT};
use crate::names::{parent_of, precedes};
use crate::protocol::{ClientServer, MatrixView, ResultMatrix, ServerClient, VertInfo};
use crate::repo::{GetResultMatrix, GetSetVerts, Repo, RepoError, Search};
use crate::resolve::{
    among, judged, lemma_named_of, named_among, named_of, sets_of, sift, tests_of, verdicts, Kinded,
};
use crate::store::Found;

verus! {

/// How many vertices are looked at for what is in a vertex, and how many for
/// the properties of a result.
pub const ADJACENT_LIMIT: u32 = 1000;

/// How many passes of a test are looked at, and how many failures.
pub const VERDICT_LIMIT: u32 = 500;

/// How many tests a matrix has.
pub const TEST_LIMIT: usize = 100;

/// How many vertices are looked at on each level beneath the root of a
/// matrix.
pub const LEVEL_LIMIT: u32 = 100;

/// From how many levels, the root among them, a matrix takes its tests.
pub const DEPTH_LIMIT: usize = 10;

impl Repo {
    /// The kind of the edge that records a verdict.
    pub open spec fn verdict_kind(passed: bool) -> EdgeKind {
        if passed {
            EdgeKind::Passed
        } else {
            EdgeKind::Failed
        }
    }

    /// `many` different vertices have an edge of the given kind to `to`.
    pub open spec fn crowded_into(&self, kind: EdgeKind, to: u128, many: int) -> bool {
        exists|s: Seq<u128>|
            #![trigger s.no_duplicates()]
            s.len() == many && s.no_duplicates() && forall|i: int|
                0 <= i < s.len() ==> self.linked(#[trigger] s[i], kind, to)
    }

    /// `many` different vertices have an edge of the given kind from `from`.
    pub open spec fn crowded_out_of(&self, from: u128, kind: EdgeKind, many: int) -> bool {
        exists|s: Seq<u128>|
            #![trigger s.no_duplicates()]
            s.len() == many && s.no_duplicates() && forall|i: int|
                0 <= i < s.len() ==> self.linked(from, kind, #[trigger] s[i])
    }

    /// `list` holds the named ones among the first thousand vertices that
    /// are in `to`, each with its name, in the order of their identifiers.
    pub open spec fn lists_children(&self, to: u128, list: Seq<Entry>) -> bool {
        exists|found: Seq<Kinded>|
            #![trigger self.first_into(to, EdgeKind::IsIn, ADJACENT_LIMIT as int, found)]
            self.first_into(to, EdgeKind::IsIn, ADJACENT_LIMIT as int, found) && list == named_of(
                self.names(),
                found,
            )
    }

    /// `list` holds the first five hundred results that `test` passed with,
    /// then the first five hundred that it failed with, each in the order of
    /// the identifiers, and each with whether the test passed.
    pub open spec fn lists_results(&self, test: u128, list: Seq<(u128, bool)>) -> bool {
        exists|passed: Seq<Kinded>, failed: Seq<Kinded>|
            #![trigger judged(passed, true), judged(failed, false)]
            {
                &&& self.first_out_of(test, EdgeKind::Passed, VERDICT_LIMIT as int, passed)
                &&& self.first_out_of(test, EdgeKind::Failed, VERDICT_LIMIT as int, failed)
                &&& list == judged(passed, true) + judged(failed, false)
            }
    }

    /// `list` holds the named ones among the first thousand properties of
    /// `result`, each with its name, in the order of their identifiers.
    pub open spec fn lists_properties(&self, result: u128, list: Seq<Entry>) -> bool {
        exists|found: Seq<Kinded>|
            #![trigger self.first_out_of(result, EdgeKind::IsIn, ADJACENT_LIMIT as int, found)]
            self.first_out_of(result, EdgeKind::IsIn, ADJACENT_LIMIT as int, found) && list
                == named_of(self.names(), found)
    }

    /// `x` lies `depth` levels beneath `root`: it is `root`, or it is in a set
    /// that lies one level less beneath `root`.
    pub open spec fn beneath(&self, root: u128, x: u128, depth: nat) -> bool
        decreases depth,
    {
        if depth == 0 {
            x == root
        } else {
            exists|s: u128|
                #![trigger self.linked(x, EdgeKind::IsIn, s)]
                self.is_vertex(s, VertexKind::NamedSet) && self.linked(x, EdgeKind::IsIn, s)
                    && self.beneath(root, s, (depth - 1) as nat)
        }
    }

    /// `tests` are at most a hundred tests, each under its own name and fewer
    /// than ten levels beneath `root`; none is listed twice, and none before
    /// one that lies less deep.
    pub open spec fn lists_tests(&self, root: u128, tests: Seq<Entry>) -> bool {
        &&& tests.len() <= TEST_LIMIT
        &&& self.in_levels(root, tests, DEPTH_LIMIT as nat)
    }

    /// `level` holds `root` with its kind where the graph has it, and nothing
    /// where it has not.
    pub open spec fn is_top(&self, root: u128, level: Seq<Kinded>) -> bool {
        if self.vertices().contains_key(root) {
            level == seq![(root, self.vertices()[root])]
        } else {
            level.len() == 0
        }
    }

    /// `level` holds what is in `sets`, set by set and each vertex with its
    /// kind: of each set its first vertices in the order of their
    /// identifiers, as many as the level has room for, which is a hundred in
    /// all.
    pub open spec fn is_below(&self, sets: Seq<u128>, level: Seq<Kinded>) -> bool
        decreases sets.len(),
    {
        if sets.len() == 0 {
            level.len() == 0
        } else {
            exists|before: Seq<Kinded>, part: Seq<Kinded>|
                #![trigger before + part]
                {
                    &&& self.is_below(sets.drop_last(), before)
                    &&& self.first_into(
                        sets.last(),
                        EdgeKind::IsIn,
                        LEVEL_LIMIT - before.len(),
                        part,
                    )
                    &&& level == before + part
                }
        }
    }

    /// `levels` descend from `root`: the first holds `root`, and each other
    /// holds what is in the sets of the one before.
    pub open spec fn descends(&self, root: u128, levels: Seq<Seq<Kinded>>) -> bool {
        &&& levels.len() > 0
        &&& self.is_top(root, levels[0])
        &&& forall|d: int|
            0 < d < levels.len() ==> self.is_below(sets_of(levels[d - 1]), #[trigger] levels[d])
    }

    /// The tests of `levels`, level by level.
    pub open spec fn tests_along(names: Seq<Entry>, levels: Seq<Seq<Kinded>>) -> Seq<Entry>
        decreases levels.len(),
    {
        if levels.len() == 0 {
            Seq::empty()
        } else {
            Self::tests_along(names, levels.drop_last()) + tests_of(names, levels.last())
        }
    }

    /// `tests` are what a descent from `root` finds: the tests of its levels
    /// but the last, up to the hundredth. The descent has gone on as long as
    /// there were fewer than a hundred tests, fewer than ten levels with
    /// their tests taken, and something on the last level.
    pub open spec fn discovers(&self, root: u128, tests: Seq<Entry>) -> bool {
        exists|levels: Seq<Seq<Kinded>>|
            #![trigger self.descends(root, levels)]
            {
                &&& self.descends(root, levels)
                &&& levels.len() <= DEPTH_LIMIT + 1
                &&& tests.len() <= TEST_LIMIT
                &&& tests.len() <= Self::tests_along(self.names(), levels.drop_last()).len()
                &&& tests == Self::tests_along(self.names(), levels.drop_last()).take(
                    tests.len() as int,
                )
                &&& tests.len() == TEST_LIMIT || tests == Self::tests_along(
                    self.names(),
                    levels.drop_last(),
                )
                &&& tests.len() == TEST_LIMIT || levels.len() == DEPTH_LIMIT + 1
                    || levels.last().len() == 0
            }
    }

    /// The results of the outcomes of `column`, each with whether it passed.
    pub open spec fn results_of(column: Column) -> Seq<(u128, bool)> {
        column.map_values(|outcome: OutcomeView| (outcome.result, outcome.passed))
    }

    /// `column` holds the outcomes of `test` as the graph records them: one
    /// for each result as `lists_results` has them, and with each result its
    /// properties as `lists_properties` has them.
    pub open spec fn lists_outcomes(&self, test: u128, column: Column) -> bool {
        &&& self.lists_results(test, Self::results_of(column))
        &&& forall|j: int|
            0 <= j < column.len() ==> self.lists_properties(
                (#[trigger] column[j]).result,
                column[j].properties,
            )
    }

    /// `observed` holds for each of `tests` a column of its outcomes.
    pub open spec fn admits(&self, tests: Seq<Entry>, observed: Seq<Column>) -> bool {
        &&& observed.len() == tests.len()
        &&& forall|i: int|
            0 <= i < tests.len() ==> self.lists_outcomes(tests[i].1, #[trigger] observed[i])
    }

    /// `found` holds the named vertices whose names start with `term`, in the
    /// order of their names: all of them, or the first ten.
    pub open spec fn finds(&self, term: Seq<char>, found: Seq<Entry>) -> bool {
        &&& found.len() <= SEARCH_LIMIT
        &&& found.len() <= matching(self.names(), term).len()
        &&& found.len() == SEARCH_LIMIT || found.len() == matching(self.names(), term).len()
        &&& found == matching(self.names(), term).take(found.len() as int)
    }

    /// `listed` holds every named vertex in the order of the names, where
    /// no root is given; else what is in the root as `lists_children` has it.
    pub open spec fn lists(&self, root: Option<u128>, listed: Seq<Entry>) -> bool {
        match root {
            None => listed == self.names(),
            Some(root) => self.lists_children(root, listed),
        }
    }

    /// `matrix` has the tests that a descent from `root` finds as its
    /// columns. Its rows are what the outcomes of these tests aggregate to,
    /// for outcomes as `lists_outcomes` has them.
    pub open spec fn tabulates(&self, root: u128, matrix: MatrixView) -> bool {
        &&& self.lists_tests(root, matrix.test_cases)
        &&& self.discovers(root, matrix.test_cases)
        &&& exists|observed: Seq<Column>|
            #![trigger self.admits(matrix.test_cases, observed)]
            self.admits(matrix.test_cases, observed) && matrix == matrix_of(
                matrix.test_cases,
                observed,
            )
    }

    /// Unless more than `limit` vertices have an edge to `to`, the first
    /// `limit` of them are all of them.
    pub proof fn lemma_first_into(&self, to: u128, kind: EdgeKind, limit: int, found: Seq<Kinded>)
        requires
            self.first_into(to, kind, limit, found),
            !self.crowded_into(kind, to, limit + 1),
        ensures
            forall|x: u128|
                #![trigger self.linked(x, kind, to)]
                self.linked(x, kind, to) ==> among(found, x),
    {
        assert forall|x: u128|
            #![trigger self.linked(x, kind, to)]
            self.linked(x, kind, to) implies among(found, x) by {
            assert(self.sources(kind, to).contains(x));
            if !among(found, x) {
                // `found` is full and ends before `x`: with `x` these are
                // more than `limit`.
                let s = Seq::new(found.len() + 1, |i: int| if i < found.len() { found[i].0 } else { x });
                assert(s.no_duplicates()) by {
                    assert forall|i: int, j: int| 0 <= i < s.len() && 0 <= j < s.len() && i
                        != j implies s[i] != s[j] by {
                        if i < found.len() && j < found.len() {
                            assert(found[i].0 != found[j].0);
                        } else if i < found.len() {
                            assert(found[i].0 <= found.last().0);
                        } else {
                            assert(found[j].0 <= found.last().0);
                        }
                    }
                }
                assert forall|i: int| 0 <= i < s.len() implies self.linked(
                    #[trigger] s[i],
                    kind,
                    to,
                ) by {
                    if i < found.len() {
                        assert(self.sources(kind, to).contains(found[i].0));
                    }
                }
                assert(self.crowded_into(kind, to, limit + 1));
            }
        }
    }

    /// Unless more than `limit` vertices have an edge from `from`, the
    /// first `limit` of them are all of them.
    pub proof fn lemma_first_out_of(
        &self,
        from: u128,
        kind: EdgeKind,
        limit: int,
        found: Seq<Kinded>,
    )
        requires
            self.first_out_of(from, kind, limit, found),
            !self.crowded_out_of(from, kind, limit + 1),
        ensures
            forall|x: u128|
                #![trigger self.linked(from, kind, x)]
                self.linked(from, kind, x) ==> among(found, x),
    {
        assert forall|x: u128|
            #![trigger self.linked(from, kind, x)]
            self.linked(from, kind, x) implies among(found, x) by {
            assert(self.targets(from, kind).contains(x));
            if !among(found, x) {
                let s = Seq::new(found.len() + 1, |i: int| if i < found.len() { found[i].0 } else { x });
                assert(s.no_duplicates()) by {
                    assert forall|i: int, j: int| 0 <= i < s.len() && 0 <= j < s.len() && i
                        != j implies s[i] != s[j] by {
                        if i < found.len() && j < found.len() {
                            assert(found[i].0 != found[j].0);
                        } else if i < found.len() {
                            assert(found[i].0 <= found.last().0);
                        } else {
                            assert(found[j].0 <= found.last().0);
                        }
                    }
                }
                assert forall|i: int| 0 <= i < s.len() implies self.linked(
                    from,
                    kind,
                    #[trigger] s[i],
                ) by {
                    if i < found.len() {
                        assert(self.targets(from, kind).contains(found[i].0));
                    }
                }
                assert(self.crowded_out_of(from, kind, limit + 1));
            }
        }
    }

    /// Where `limit` vertices have an edge to `to`, the first `limit` of them
    /// are `limit` vertices.
    pub proof fn lemma_first_into_full(
        &self,
        to: u128,
        kind: EdgeKind,
        limit: int,
        found: Seq<Kinded>,
    )
        requires
            self.first_into(to, kind, limit, found),
            self.crowded_into(kind, to, limit),
        ensures
            found.len() == limit,
    {
        if found.len() < limit {
            let s = choose|s: Seq<u128>|
                #![trigger s.no_duplicates()]
                s.len() == limit && s.no_duplicates() && forall|i: int|
                    0 <= i < s.len() ==> self.linked(#[trigger] s[i], kind, to);
            let ids = found.map_values(|f: Kinded| f.0);
            assert forall|x: u128| s.to_set().contains(x) implies ids.to_set().contains(x) by {
                assert(self.sources(kind, to).contains(x));
                assert(among(found, x));
                let j = choose|j: int| 0 <= j < found.len() && (#[trigger] found[j]).0 == x;
                assert(ids[j] == x);
            }
            s.unique_seq_to_set();
            ids.lemma_cardinality_of_set();
            seq_to_set_is_finite(ids);
            lemma_len_subset(s.to_set(), ids.to_set());
        }
    }

    /// Where every vertex of a level is a test, the level has a test for
    /// each of its vertices.
    proof fn lemma_all_tests(names: Seq<Entry>, level: Seq<Kinded>)
        requires
            forall|j: int| 0 <= j < level.len() ==> (#[trigger] level[j]).1 == VertexKind::Test.text(),
        ensures
            tests_of(names, level).len() == level.len(),
        decreases level.len(),
    {
        if level.len() > 0 {
            assert forall|j: int| 0 <= j < level.drop_last().len() implies (
            #[trigger] level.drop_last()[j]).1 == VertexKind::Test.text() by {
            }
            Self::lemma_all_tests(names, level.drop_last());
        }
    }

    /// The tests of some levels are at least those of each level.
    proof fn lemma_tests_along(names: Seq<Entry>, levels: Seq<Seq<Kinded>>, d: int)
        requires
            0 <= d < levels.len(),
        ensures
            Self::tests_along(names, levels).len() >= tests_of(names, levels[d]).len(),
        decreases levels.len(),
    {
        if d < levels.len() - 1 {
            Self::lemma_tests_along(names, levels.drop_last(), d);
            assert(levels.drop_last()[d] == levels[d]);
        }
    }

    /// Beneath a set that holds a hundred vertices or more, all of them
    /// tests, a descent finds a hundred tests.
    pub proof fn lemma_full_set(&self, root: u128, tests: Seq<Entry>)
        requires
            self.wf(),
            self.is_vertex(root, VertexKind::NamedSet),
            self.crowded_into(EdgeKind::IsIn, root, LEVEL_LIMIT as int),
            forall|x: u128|
                #![trigger self.linked(x, EdgeKind::IsIn, root)]
                self.linked(x, EdgeKind::IsIn, root) ==> self.is_vertex(x, VertexKind::Test),
            self.discovers(root, tests),
        ensures
            tests.len() == TEST_LIMIT,
    {
        VertexKind::lemma_texts_differ();
        let names = self.names();
        let levels = choose|levels: Seq<Seq<Kinded>>|
            #![trigger self.descends(root, levels)]
            {
                &&& self.descends(root, levels)
                &&& levels.len() <= DEPTH_LIMIT + 1
                &&& tests.len() <= TEST_LIMIT
                &&& tests == Self::tests_along(names, levels.drop_last()).take(tests.len() as int)
                &&& tests.len() == TEST_LIMIT || tests == Self::tests_along(
                    names,
                    levels.drop_last(),
                )
                &&& tests.len() == TEST_LIMIT || levels.len() == DEPTH_LIMIT + 1
                    || levels.last().len() == 0
            };
        if tests.len() != TEST_LIMIT {
            let top = levels[0];
            assert(top == seq![(root, VertexKind::NamedSet.text())]);
            assert(sets_of(top) =~= seq![root]) by {
                reveal_with_fuel(sets_of, 2);
            }
            assert(tests_of(names, top).len() == 0) by {
                reveal_with_fuel(tests_of, 2);
            }
            // The descent went on from `root`, which is not empty: what is in
            // `root` is the second level, and it is full.
            let second = levels[1];
            let (before, part) = choose|before: Seq<Kinded>, part: Seq<Kinded>|
                #![trigger before + part]
                {
                    &&& self.is_below(seq![root].drop_last(), before)
                    &&& self.first_into(
                        seq![root].last(),
                        EdgeKind::IsIn,
                        LEVEL_LIMIT - before.len(),
                        part,
                    )
                    &&& second == before + part
                };
            assert(second =~= part);
            self.lemma_first_into_full(root, EdgeKind::IsIn, LEVEL_LIMIT as int, part);
            Self::lemma_all_tests(names, second);
            Self::lemma_tests_along(names, levels.drop_last(), 1);
        }
    }

    /// What is listed of a vertex: at most a thousand named vertices, each
    /// once and under its name, and each in the vertex, in the order of their
    /// identifiers. Unless more than a thousand vertices are in the vertex,
    /// every named one is listed.
    pub proof fn lemma_lists_children(&self, to: u128, list: Seq<Entry>)
        requires
            self.lists_children(to, list),
        ensures
            list.len() <= ADJACENT_LIMIT,
            forall|k: int|
                0 <= k < list.len() ==> {
                    &&& self.name_of((#[trigger] list[k]).1) == Some(list[k].0)
                    &&& self.linked(list[k].1, EdgeKind::IsIn, to)
                },
            forall|i: int, k: int|
                0 <= i < k < list.len() ==> (#[trigger] list[i]).1 < (#[trigger] list[k]).1,
            !self.crowded_into(EdgeKind::IsIn, to, ADJACENT_LIMIT + 1) ==> forall|x: u128|
                #![trigger self.linked(x, EdgeKind::IsIn, to)]
                self.linked(x, EdgeKind::IsIn, to) && self.name_of(x).is_some() ==> exists|k: int|
                    0 <= k < list.len() && (#[trigger] list[k]).1 == x,
    {
        let found = choose|found: Seq<Kinded>|
            #![trigger self.first_into(to, EdgeKind::IsIn, ADJACENT_LIMIT as int, found)]
            self.first_into(to, EdgeKind::IsIn, ADJACENT_LIMIT as int, found) && list == named_of(
                self.names(),
                found,
            );
        lemma_named_of(self.names(), found);
        if !self.crowded_into(EdgeKind::IsIn, to, ADJACENT_LIMIT + 1) {
            self.lemma_first_into(to, EdgeKind::IsIn, ADJACENT_LIMIT as int, found);
        }
    }

    /// What is listed of a result: at most a thousand named properties, each
    /// once and under its name, and each one that the result was recorded
    /// under, in the order of their identifiers. Unless the result has more
    /// than a thousand properties, every named one is listed.
    pub proof fn lemma_lists_properties(&self, result: u128, list: Seq<Entry>)
        requires
            self.lists_properties(result, list),
        ensures
            list.len() <= ADJACENT_LIMIT,
            forall|k: int|
                0 <= k < list.len() ==> {
                    &&& self.name_of((#[trigger] list[k]).1) == Some(list[k].0)
                    &&& self.linked(result, EdgeKind::IsIn, list[k].1)
                },
            forall|i: int, k: int|
                0 <= i < k < list.len() ==> (#[trigger] list[i]).1 < (#[trigger] list[k]).1,
            !self.crowded_out_of(result, EdgeKind::IsIn, ADJACENT_LIMIT + 1) ==> forall|x: u128|
                #![trigger self.linked(result, EdgeKind::IsIn, x)]
                self.linked(result, EdgeKind::IsIn, x) && self.name_of(x).is_some() ==> exists|
                    k: int,
                | 0 <= k < list.len() && (#[trigger] list[k]).1 == x,
    {
        let found = choose|found: Seq<Kinded>|
            #![trigger self.first_out_of(result, EdgeKind::IsIn, ADJACENT_LIMIT as int, found)]
            self.first_out_of(result, EdgeKind::IsIn, ADJACENT_LIMIT as int, found) && list
                == named_of(self.names(), found);
        lemma_named_of(self.names(), found);
        if !self.crowded_out_of(result, EdgeKind::IsIn, ADJACENT_LIMIT + 1) {
            self.lemma_first_out_of(result, EdgeKind::IsIn, ADJACENT_LIMIT as int, found);
        }
    }

    /// What is listed of a test: at most a thousand results, none twice, each
    /// with the verdict that the graph records for it. Unless the test
    /// passed more than five hundred times, every pass is listed, and
    /// likewise every failure.
    pub proof fn lemma_lists_results(&self, test: u128, list: Seq<(u128, bool)>)
        requires
            self.lists_results(test, list),
        ensures
            list.len() <= 2 * VERDICT_LIMIT,
            list.no_duplicates(),
            forall|k: int|
                0 <= k < list.len() ==> self.linked(
                    test,
                    Self::verdict_kind((#[trigger] list[k]).1),
                    list[k].0,
                ),
            forall|passed: bool|
                !self.crowded_out_of(test, Self::verdict_kind(passed), VERDICT_LIMIT + 1)
                    ==> forall|r: u128|
                    #![trigger self.linked(test, Self::verdict_kind(passed), r)]
                    self.linked(test, Self::verdict_kind(passed), r) ==> list.contains((r, passed)),
    {
        let (p, f) = choose|p: Seq<Kinded>, f: Seq<Kinded>|
            #![trigger judged(p, true), judged(f, false)]
            {
                &&& self.first_out_of(test, EdgeKind::Passed, VERDICT_LIMIT as int, p)
                &&& self.first_out_of(test, EdgeKind::Failed, VERDICT_LIMIT as int, f)
                &&& list == judged(p, true) + judged(f, false)
            };
        assert forall|verdict: bool|
            !self.crowded_out_of(
                test,
                Self::verdict_kind(verdict),
                VERDICT_LIMIT + 1,
            ) implies forall|r: u128|
            #![trigger self.linked(test, Self::verdict_kind(verdict), r)]
            self.linked(test, Self::verdict_kind(verdict), r) ==> list.contains((r, verdict)) by {
            let kind = Self::verdict_kind(verdict);
            let found = if verdict { p } else { f };
            self.lemma_first_out_of(test, kind, VERDICT_LIMIT as int, found);
            assert forall|r: u128|
                #![trigger self.linked(test, kind, r)]
                self.linked(test, kind, r) implies list.contains((r, verdict)) by {
                let j = choose|j: int| 0 <= j < found.len() && (#[trigger] found[j]).0 == r;
                if verdict {
                    assert(list[j] == judged(p, true)[j]);
                } else {
                    assert(list[p.len() + j] == judged(f, false)[j]);
                }
            }
        }
    }

    /// What a level holds: at most a hundred vertices of the graph, each
    /// with its kind, and each in one of the sets.
    pub proof fn lemma_is_below(&self, sets: Seq<u128>, level: Seq<Kinded>)
        requires
            self.is_below(sets, level),
        ensures
            level.len() <= LEVEL_LIMIT,
            self.holds_all(level),
            forall|j: int|
                0 <= j < level.len() ==> exists|t: int|
                    0 <= t < sets.len() && self.linked(
                        (#[trigger] level[j]).0,
                        EdgeKind::IsIn,
                        #[trigger] sets[t],
                    ),
        decreases sets.len(),
    {
        if sets.len() > 0 {
            let (before, part) = choose|before: Seq<Kinded>, part: Seq<Kinded>|
                #![trigger before + part]
                {
                    &&& self.is_below(sets.drop_last(), before)
                    &&& self.first_into(
                        sets.last(),
                        EdgeKind::IsIn,
                        LEVEL_LIMIT - before.len(),
                        part,
                    )
                    &&& level == before + part
                };
            self.lemma_is_below(sets.drop_last(), before);
        }
    }

    /// What a search finds: at most ten named vertices, each under its own
    /// name, which starts with the term, in the order of the names.
    pub proof fn lemma_finds(&self, term: Seq<char>, found: Seq<Entry>)
        requires
            self.wf(),
            self.finds(term, found),
        ensures
            found.len() <= SEARCH_LIMIT,
            forall|k: int| 0 <= k < found.len() ==> term.is_prefix_of((#[trigger] found[k]).0),
            forall|k: int|
                0 <= k < found.len() ==> self.id_of((#[trigger] found[k]).0) == Some(found[k].1),
            sorted_by_name(found),
    {
        let names = self.names();
        let all = matching(names, term);
        self.lemma_wf();
        assert forall|k: int| 0 <= k < found.len() implies term.is_prefix_of(
            (#[trigger] found[k]).0,
        ) && self.id_of(found[k].0) == Some(found[k].1) by {
            assert(names.contains(all[k])) by {
                lemma_matching_kept(names, term, k);
            }
        }
        lemma_matching_sorted(names, term);
        assert forall|i: int, j: int| 0 <= i < j < found.len() implies precedes(
            (#[trigger] found[i]).0,
            (#[trigger] found[j]).0,
        ) by {
        }
    }

    /// A name with a parent is listed among what is in the vertex of the
    /// parent, unless more than a thousand vertices are in it.
    pub proof fn lemma_child_listed(&self, name: Seq<char>, listed: Seq<Entry>)
        requires
            self.wf(),
            self.id_of(name).is_some(),
            parent_of(name).is_some(),
            self.lists_children(self.id_of(parent_of(name).unwrap()).unwrap(), listed),
            !self.crowded_into(
                EdgeKind::IsIn,
                self.id_of(parent_of(name).unwrap()).unwrap(),
                ADJACENT_LIMIT + 1,
            ),
        ensures
            self.id_of(parent_of(name).unwrap()).is_some(),
            listed.contains((name, self.id_of(name).unwrap())),
    {
        self.lemma_wf();
        let id = self.id_of(name).unwrap();
        let up = self.id_of(parent_of(name).unwrap()).unwrap();
        self.lemma_lists_children(up, listed);
        assert(self.name_of(id) == Some(name));
        let k = choose|k: int| 0 <= k < listed.len() && (#[trigger] listed[k]).1 == id;
        assert(listed[k] == (name, id));
    }

    /// Nothing is in a vertex that the graph does not have.
    pub proof fn lemma_unknown_root(&self, root: u128, listed: Seq<Entry>)
        requires
            self.wf(),
            !self.vertices().contains_key(root),
            self.lists_children(root, listed),
        ensures
            listed.len() == 0,
    {
        self.lemma_wf();
    }

    /// What is listed of a vertex is determined by the graph and the names.
    pub proof fn lemma_one_list_of_children(&self, to: u128, a: Seq<Entry>, b: Seq<Entry>)
        requires
            self.lists_children(to, a),
            self.lists_children(to, b),
        ensures
            a == b,
    {
        let found_a = choose|found: Seq<Kinded>|
            #![trigger self.first_into(to, EdgeKind::IsIn, ADJACENT_LIMIT as int, found)]
            self.first_into(to, EdgeKind::IsIn, ADJACENT_LIMIT as int, found) && a == named_of(
                self.names(),
                found,
            );
        let found_b = choose|found: Seq<Kinded>|
            #![trigger self.first_into(to, EdgeKind::IsIn, ADJACENT_LIMIT as int, found)]
            self.first_into(to, EdgeKind::IsIn, ADJACENT_LIMIT as int, found) && b == named_of(
                self.names(),
                found,
            );
        self.lemma_first_into_unique(to, EdgeKind::IsIn, ADJACENT_LIMIT as int, found_a, found_b);
    }

    /// The properties listed of a result are determined by the graph and
    /// the names.
    pub proof fn lemma_one_list_of_properties(&self, result: u128, a: Seq<Entry>, b: Seq<Entry>)
        requires
            self.lists_properties(result, a),
            self.lists_properties(result, b),
        ensures
            a == b,
    {
        let found_a = choose|found: Seq<Kinded>|
            #![trigger self.first_out_of(result, EdgeKind::IsIn, ADJACENT_LIMIT as int, found)]
            self.first_out_of(result, EdgeKind::IsIn, ADJACENT_LIMIT as int, found) && a
                == named_of(self.names(), found);
        let found_b = choose|found: Seq<Kinded>|
            #![trigger self.first_out_of(result, EdgeKind::IsIn, ADJACENT_LIMIT as int, found)]
            self.first_out_of(result, EdgeKind::IsIn, ADJACENT_LIMIT as int, found) && b
                == named_of(self.names(), found);
        self.lemma_first_out_of_unique(
            result,
            EdgeKind::IsIn,
            ADJACENT_LIMIT as int,
            found_a,
            found_b,
        );
    }

    /// The results listed of a test are determined by the graph.
    pub proof fn lemma_one_list_of_results(
        &self,
        test: u128,
        a: Seq<(u128, bool)>,
        b: Seq<(u128, bool)>,
    )
        requires
            self.lists_results(test, a),
            self.lists_results(test, b),
        ensures
            a == b,
    {
        let (passed_a, failed_a) = choose|passed: Seq<Kinded>, failed: Seq<Kinded>|
            #![trigger judged(passed, true), judged(failed, false)]
            {
                &&& self.first_out_of(test, EdgeKind::Passed, VERDICT_LIMIT as int, passed)
                &&& self.first_out_of(test, EdgeKind::Failed, VERDICT_LIMIT as int, failed)
                &&& a == judged(passed, true) + judged(failed, false)
            };
        let (passed_b, failed_b) = choose|passed: Seq<Kinded>, failed: Seq<Kinded>|
            #![trigger judged(passed, true), judged(failed, false)]
            {
                &&& self.first_out_of(test, EdgeKind::Passed, VERDICT_LIMIT as int, passed)
                &&& self.first_out_of(test, EdgeKind::Failed, VERDICT_LIMIT as int, failed)
                &&& b == judged(passed, true) + judged(failed, false)
            };
        self.lemma_first_out_of_unique(
            test,
            EdgeKind::Passed,
            VERDICT_LIMIT as int,
            passed_a,
            passed_b,
        );
        self.lemma_first_out_of_unique(
            test,
            EdgeKind::Failed,
            VERDICT_LIMIT as int,
            failed_a,
            failed_b,
        );
    }

    /// The outcomes of a test are determined by the graph and the names.
    pub proof fn lemma_one_column(&self, test: u128, a: Column, b: Column)
        requires
            self.lists_outcomes(test, a),
            self.lists_outcomes(test, b),
        ensures
            a == b,
    {
        self.lemma_one_list_of_results(test, Self::results_of(a), Self::results_of(b));
        assert(a.len() == Self::results_of(a).len());
        assert(b.len() == Self::results_of(b).len());
        assert forall|j: int| 0 <= j < a.len() implies a[j] == b[j] by {
            assert(Self::results_of(a)[j] == Self::results_of(b)[j]);
            self.lemma_one_list_of_properties(a[j].result, a[j].properties, b[j].properties);
        }
        assert(a =~= b);
    }

    /// The result matrix of a root is determined by the graph and the
    /// names.
    pub proof fn lemma_one_matrix(&self, root: u128, a: MatrixView, b: MatrixView)
        requires
            self.tabulates(root, a),
            self.tabulates(root, b),
        ensures
            a == b,
    {
        self.lemma_discovers_unique(root, a.test_cases, b.test_cases);
        let tests = a.test_cases;
        let seen_a = choose|observed: Seq<Column>|
            #![trigger self.admits(a.test_cases, observed)]
            self.admits(a.test_cases, observed) && a == matrix_of(a.test_cases, observed);
        let seen_b = choose|observed: Seq<Column>|
            #![trigger self.admits(b.test_cases, observed)]
            self.admits(b.test_cases, observed) && b == matrix_of(b.test_cases, observed);
        assert forall|i: int| 0 <= i < tests.len() implies seen_a[i] == seen_b[i] by {
            self.lemma_one_column(tests[i].1, seen_a[i], seen_b[i]);
        }
        assert(seen_a =~= seen_b);
    }

    /// The named vertices whose names start with the term, in the order of
    /// their names: the first ten of them.
    pub fn search(&self, msg: &Search) -> (found: Vec<(String, u128)>)
        requires
            self.wf(),
        ensures
            self.finds(msg.0@, found.deep_view()),
            found.len() <= SEARCH_LIMIT,
            forall|k: int| 0 <= k < found.len() ==> msg.0@.is_prefix_of(#[trigger] found[k].0@),
            forall|k: int|
                0 <= k < found.len() ==> self.id_of(#[trigger] found[k].0@) == Some(found[k].1),
            sorted_by_name(found.deep_view()),
    {
        let found = self.index().search(msg.0.as_str());
        proof {
            let list = found.deep_view();
            self.lemma_finds(msg.0@, list);
            assert forall|k: int| 0 <= k < found.len() implies msg.0@.is_prefix_of(
                #[trigger] found[k].0@,
            ) && self.id_of(found[k].0@) == Some(found[k].1) by {
                assert(list[k] == (found[k].0@, found[k].1));
            }
        }
        found
    }

    /// The named vertices that are in `root`, each with its name, in the
    /// order of their identifiers.
    ///
    /// Only the first thousand vertices in `root` are looked at.
    pub fn get_adjacent(&self, root: u128) -> (listed: Result<Vec<VertInfo>, RepoError>)
        requires
            self.wf(),
        ensures
            listed matches Ok(list) && self.lists_children(root, list.deep_view()),
    {
        let found = match self.sources_of(root, EdgeKind::IsIn, ADJACENT_LIMIT) {
            Ok(found) => found,
            Err(e) => {
                return Err(e);
            },
        };
        Ok(named_among(self.index(), &found))
    }

    /// The results of `test`, each with whether it passed: the passes, then
    /// the failures, each in the order of the identifiers.
    ///
    /// Only the first five hundred passes and the first five hundred failures
    /// are looked at.
    pub fn get_test_results(&self, test: u128) -> (listed: Result<Vec<(u128, bool)>, RepoError>)
        requires
            self.wf(),
        ensures
            listed matches Ok(list) && self.lists_results(test, list@),
    {
        let passed = match self.targets_of(test, EdgeKind::Passed, VERDICT_LIMIT) {
            Ok(found) => found,
            Err(e) => {
                return Err(e);
            },
        };
        let failed = match self.targets_of(test, EdgeKind::Failed, VERDICT_LIMIT) {
            Ok(found) => found,
            Err(e) => {
                return Err(e);
            },
        };
        Ok(verdicts(&passed, &failed))
    }

    /// The named properties that `result` was recorded under, each with its
    /// name, in the order of their identifiers.
    ///
    /// Only the first thousand properties of `result` are looked at.
    pub fn get_test_result_props(&self, result: u128) -> (listed: Result<Vec<VertInfo>, RepoError>)
        requires
            self.wf(),
        ensures
            listed matches Ok(list) && self.lists_properties(result, list.deep_view()),
    {
        let found = match self.targets_of(result, EdgeKind::IsIn, ADJACENT_LIMIT) {
            Ok(found) => found,
            Err(e) => {
                return Err(e);
            },
        };
        Ok(named_among(self.index(), &found))
    }

    /// What is in `sets`, set by set and each vertex with its kind: a hundred
    /// vertices at most.
    pub fn get_outer_sets(&self, sets: &Vec<u128>) -> (listed: Result<Vec<Found>, RepoError>)
        requires
            self.wf(),
        ensures
            listed matches Ok(found) && self.is_below(sets@, found.deep_view()),
    {
        let mut level: Vec<Found> = Vec::new();
        let mut t: usize = 0;
        assert(sets@.take(0) =~= Seq::<u128>::empty());
        while t < sets.len()
            invariant
                0 <= t <= sets.len(),
                self.wf(),
                level.len() <= LEVEL_LIMIT,
                self.is_below(sets@.take(t as int), level.deep_view()),
            decreases sets.len() - t,
        {
            let ghost before = level.deep_view();
            let room = LEVEL_LIMIT - level.len() as u32;
            let mut part = if room == 0 {
                Vec::new()
            } else {
                match self.sources_of(sets[t], EdgeKind::IsIn, room) {
                    Ok(found) => found,
                    Err(e) => {
                        return Err(e);
                    },
                }
            };
            let ghost added = part.deep_view();
            level.append(&mut part);
            proof {
                assert(level.deep_view() =~= before + added);
                assert(sets@.take(t + 1).drop_last() =~= sets@.take(t as int));
                assert(sets@.take(t + 1).last() == sets[t as int]);
                assert(self.first_into(sets[t as int], EdgeKind::IsIn, LEVEL_LIMIT - before.len(), added));
            }
            t = t + 1;
        }
        assert(sets@.take(t as int) =~= sets@);
        Ok(level)
    }

    /// The tests beneath `root`, level by level: `root` itself where it is a
    /// test, then the tests in `root`, then those in the sets in `root`, and
    /// so on, each level in the order in which the graph store hands it out.
    ///
    /// The descent ends with the hundredth test, after ten levels, or where a
    /// level is empty. At most a hundred vertices are looked at on each
    /// level. No test is listed twice, and a test is not descended into.
    pub fn get_inner_tests(&self, root: u128) -> (listed: Result<Vec<VertInfo>, RepoError>)
        requires
            self.wf(),
        ensures
            listed matches Ok(tests) && self.discovers(root, tests.deep_view()),
            listed matches Ok(tests) && self.lists_tests(root, tests.deep_view()),
            listed matches Ok(tests) && (!self.vertices().contains_key(root) ==> tests.len() == 0),
    {
        let mut tests: Vec<VertInfo> = Vec::new();
        let mut frontier: Vec<Found> = Vec::new();
        match self.vertex_kind(root) {
            Ok(Some(kind)) => {
                frontier.push((root, kind));
            },
            Ok(None) => {},
            Err(e) => {
                return Err(e);
            },
        }
        let ghost mut levels: Seq<Seq<Kinded>> = seq![frontier.deep_view()];
        proof {
            assert(levels.drop_last() =~= Seq::<Seq<Kinded>>::empty());
            assert(tests.deep_view() =~= Self::tests_along(self.names(), levels.drop_last()));
            if self.vertices().contains_key(root) {
                assert(frontier.deep_view() =~= seq![(root, self.vertices()[root])]);
            }
        }
        let mut depth: usize = 0;
        while tests.len() < TEST_LIMIT && frontier.len() > 0 && depth < DEPTH_LIMIT
            invariant
                self.wf(),
                depth <= DEPTH_LIMIT,
                tests.len() <= TEST_LIMIT,
                !self.vertices().contains_key(root) ==> frontier.len() == 0 && tests.len() == 0,
                levels.len() == depth + 1,
                levels.last() == frontier.deep_view(),
                self.descends(root, levels),
                tests.len() <= Self::tests_along(self.names(), levels.drop_last()).len(),
                tests.deep_view() == Self::tests_along(self.names(), levels.drop_last()).take(
                    tests.len() as int,
                ),
                tests.len() == TEST_LIMIT || tests.deep_view() == Self::tests_along(
                    self.names(),
                    levels.drop_last(),
                ),
            decreases DEPTH_LIMIT - depth,
        {
            let ghost before = tests.deep_view();
            let ghost level = frontier.deep_view();
            let sets = sift(self.index(), &frontier, &mut tests, TEST_LIMIT);
            frontier = match self.get_outer_sets(&sets) {
                Ok(found) => found,
                Err(e) => {
                    return Err(e);
                },
            };
            proof {
                let next = frontier.deep_view();
                let longer = levels.push(next);
                assert(longer.drop_last() =~= levels);
                assert(levels =~= levels.drop_last().push(level));
                assert(self.is_below(sets@, next));
                assert(self.descends(root, longer)) by {
                    assert forall|d: int| 0 < d < longer.len() implies self.is_below(
                        sets_of(longer[d - 1]),
                        #[trigger] longer[d],
                    ) by {
                        if d < levels.len() {
                            assert(longer[d] == levels[d] && longer[d - 1] == levels[d - 1]);
                        }
                    }
                }
                levels = longer;
            }
            depth = depth + 1;
        }
        proof {
            let listed = tests.deep_view();
            assert(self.discovers(root, listed));
            self.lemma_discovered(root, listed);
        }
        Ok(tests)
    }

    /// The outcomes of `test` as the graph records them, each with its
    /// properties.
    pub fn get_outcomes(&self, test: u128) -> (column: Vec<Outcome>)
        requires
            self.wf(),
        ensures
            self.lists_outcomes(test, column.deep_view()),
    {
        let results = or_nothing(self.get_test_results(test));
        let mut column: Vec<Outcome> = Vec::new();
        let mut j: usize = 0;
        while j < results.len()
            invariant
                0 <= j <= results.len(),
                self.wf(),
                column.len() == j,
                Self::results_of(column.deep_view()) == results@.take(j as int),
                forall|k: int|
                    0 <= k < j ==> self.lists_properties(
                        (#[trigger] column.deep_view()[k]).result,
                        column.deep_view()[k].properties,
                    ),
            decreases results.len() - j,
        {
            let result = results[j].0;
            let passed = results[j].1;
            let properties = or_nothing(self.get_test_result_props(result));
            let ghost before = column.deep_view();
            let outcome = Outcome { result, passed, properties };
            column.push(outcome);
            proof {
                let now = column.deep_view();
                assert(now =~= before.push(outcome@));
            }
            j = j + 1;
        }
        assert(results@.take(j as int) =~= results@);
        column
    }

    /// The outcomes of each of `tests`.
    pub fn observe(&self, tests: &Vec<VertInfo>) -> (observed: Vec<Vec<Outcome>>)
        requires
            self.wf(),
            tests.len() <= u32::MAX,
        ensures
            self.admits(tests.deep_view(), observed.deep_view()),
            countable(observed.deep_view()),
    {
        let mut observed: Vec<Vec<Outcome>> = Vec::new();
        let mut i: usize = 0;
        while i < tests.len()
            invariant
                0 <= i <= tests.len() <= u32::MAX,
                self.wf(),
                observed.len() == i,
                forall|k: int|
                    0 <= k < i ==> {
                        &&& self.lists_outcomes(
                            tests.deep_view()[k].1,
                            #[trigger] observed.deep_view()[k],
                        )
                        &&& column_tags(observed.deep_view()[k]).len() <= u32::MAX
                    },
            decreases tests.len() - i,
        {
            let column = self.get_outcomes(tests[i].1);
            let ghost before = observed.deep_view();
            proof {
                let col = column.deep_view();
                self.lemma_lists_results(tests[i as int].1, Self::results_of(col));
                assert forall|j: int| 0 <= j < col.len() implies (#[trigger] col[j]).properties.len()
                    <= ADJACENT_LIMIT by {
                    self.lemma_lists_properties(col[j].result, col[j].properties);
                }
                lemma_tags_bounded(col, ADJACENT_LIMIT as nat);
            }
            observed.push(column);
            proof {
                let now = observed.deep_view();
                assert(now =~= before.push(column.deep_view()));
            }
            i = i + 1;
        }
        observed
    }

    /// The result matrix of the tests beneath a vertex: the tests that
    /// `get_inner_tests` lists are the columns, the properties that their
    /// results were recorded under are the rows, and each cell counts the
    /// passes and the failures of one test under one property.
    ///
    /// Every limit of the traversals applies; the matrix does not tell
    /// whether one was reached. A root that the graph does not have gives
    /// an empty matrix.
    pub fn compute_result_matrix(&self, msg: &GetResultMatrix) -> (matrix: ResultMatrix)
        requires
            self.wf(),
        ensures
            self.tabulates(msg.0, matrix@),
            matrix.test_cases.len() <= TEST_LIMIT,
            !self.vertices().contains_key(msg.0) ==> matrix.test_cases.len() == 0
                && matrix.results.len() == 0,
            rows_distinct(matrix@.rows),
            rows_in_order(matrix@.rows, matrix@.test_cases.len() as int),
    {
        let tests = or_nothing(self.get_inner_tests(msg.0));
        let observed = self.observe(&tests);
        let matrix = aggregate(tests, &observed);
        proof {
            if matrix.test_cases.len() == 0 {
                lemma_no_tests(observed.deep_view());
            }
        }
        matrix
    }

    /// `reply` answers `msg`: a list of vertices for a query of a set, what
    /// was found together with the term for a search, and the matrix together
    /// with the root for a query of a matrix.
    pub open spec fn answers(&self, msg: ClientServer, reply: ServerClient) -> bool {
        match msg {
            ClientServer::SetQuery(root) => reply matches ServerClient::SetList(listed)
                && self.lists(root, listed.deep_view()),
            ClientServer::Search(term) => reply matches ServerClient::Search(echo, found) && echo@
                == term@ && self.finds(term@, found.deep_view()),
            ClientServer::ResultMatrix(root) => reply matches ServerClient::ResultMatrix(
                echo,
                matrix,
            ) && echo == root && self.tabulates(root, matrix@) && rows_distinct(matrix@.rows)
                && rows_in_order(matrix@.rows, matrix@.test_cases.len() as int),
        }
    }

    /// Answers the message of a client.
    pub fn answer(&self, msg: &ClientServer) -> (reply: ServerClient)
        requires
            self.wf(),
        ensures
            self.answers(*msg, reply),
    {
        match msg {
            ClientServer::SetQuery(root) => ServerClient::SetList(
                self.list_children(&GetSetVerts(*root)),
            ),
            ClientServer::Search(term) => {
                let found = self.search(&Search(term.clone()));
                ServerClient::Search(term.clone(), found)
            },
            ClientServer::ResultMatrix(root) => ServerClient::ResultMatrix(
                *root,
                self.compute_result_matrix(&GetResultMatrix(*root)),
            ),
        }
    }

    /// What a vertex contains, or every named vertex.
    ///
    /// Without a root: every named vertex, in the order of the names. With a
    /// root: as `get_adjacent` lists them; a root that the graph does not
    /// have holds nothing.
    pub fn list_children(&self, msg: &GetSetVerts) -> (listed: Vec<(String, u128)>)
        requires
            self.wf(),
        ensures
            self.lists(msg.0, listed.deep_view()),
            msg.0 matches Some(root) && !self.vertices().contains_key(root) ==> listed.len() == 0,
    {
        match msg.0 {
            None => self.index().get_all(),
            Some(root) => {
                let list = or_nothing(self.get_adjacent(root));
                proof {
                    if !self.vertices().contains_key(root) {
                        self.lemma_unknown_root(root, list.deep_view());
                    }
                }
                pairs(list)
            },
        }
    }
}


/// What a read goes on with after a fetch: the list that was fetched, or,
/// where the graph store failed, an empty one.
pub fn or_nothing<T>(fetched: Result<Vec<T>, RepoError>) -> (list: Vec<T>)
    ensures
        fetched matches Ok(given) ==> list == given,
        fetched is Err ==> list@ == Seq::<T>::empty(),
{
    match fetched {
        Ok(given) => given,
        Err(_) => Vec::new(),
    }
}

/// The same names and vertices as pairs.
pub fn pairs(list: Vec<VertInfo>) -> (listed: Vec<(String, u128)>)
    ensures
        listed.deep_view() == list.deep_view(),
{
    let mut listed: Vec<(String, u128)> = Vec::new();
    let mut i: usize = 0;
    while i < list.len()
        invariant
            0 <= i <= list.len(),
            listed.deep_view() == list.deep_view().take(i as int),
        decreases list.len() - i,
    {
        let ghost before = listed.deep_view();
        listed.push((list[i].0.clone(), list[i].1));
        assert(listed.deep_view() =~= before.push(list.deep_view()[i as int]));
        i = i + 1;
    }
    listed
}

/// An entry that matches a term in a list is an entry of the list.
proof fn lemma_matching_kept(names: Seq<Entry>, term: Seq<char>, k: int)
    requires
        0 <= k < matching(names, term).len(),
    ensures
        names.contains(matching(names, term)[k]),
    decreases names.len(),
{
    reveal(Seq::filter);
    let pred = |e: Entry| term.is_prefix_of(e.0);
    if names.len() > 0 {
        let rest = names.drop_last();
        if k < rest.filter(pred).len() {
            lemma_matching_kept(rest, term, k);
        }
    }
}

/// The entries that match a term in a sorted list are sorted.
proof fn lemma_matching_sorted(names: Seq<Entry>, term: Seq<char>)
    requires
        sorted_by_name(names),
    ensures
        sorted_by_name(matching(names, term)),
    decreases names.len(),
{
    reveal(Seq::filter);
    let pred = |e: Entry| term.is_prefix_of(e.0);
    if names.len() > 0 {
        let rest = names.drop_last();
        let kept = rest.filter(pred);
        let all = names.filter(pred);
        lemma_matching_sorted(rest, term);
        assert forall|i: int, j: int| 0 <= i < j < all.len() implies precedes(
            (#[trigger] all[i]).0,
            (#[trigger] all[j]).0,
        ) by {
            if j >= kept.len() {
                lemma_matching_kept(rest, term, i);
            }
        }
    }
}

} // verus!
