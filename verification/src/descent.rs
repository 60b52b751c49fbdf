//! Laws of the descent from a root to the tests beneath it: a named vertex
//! lies at one depth, no level holds a named vertex twice, and the tests
//! that a descent finds are distinct, named, and listed level by level.

use vstd::prelude::*;

use crate::kinds::{EdgeKind, VertexKind};
use crate::name_index::Entry;
use crate::names::{lemma_parent_shorter, parent_of};
use crate::queries::{DEPTH_LIMIT, LEVEL_LIMIT, TEST_LIMIT};
use crate::repo::Repo;
use crate::resolve::{lemma_sets_of, lemma_tests_of, sets_of, tests_of, Kinded};

verus! {

/// The sets of a level that holds no set twice are distinct.
pub proof fn lemma_sets_apart(level: Seq<Kinded>)
    requires
        forall|i: int, j: int|
            0 <= i < j < level.len() && (#[trigger] level[i]).0 == (#[trigger] level[j]).0
                ==> level[i].1 != VertexKind::NamedSet.text(),
    ensures
        forall|s: int, t: int|
            0 <= s < t < sets_of(level).len() ==> #[trigger] sets_of(level)[s] != #[trigger] sets_of(
                level,
            )[t],
    decreases level.len(),
{
    if level.len() > 0 {
        let rest = level.drop_last();
        let sets = sets_of(level);
        assert forall|i: int, j: int|
            0 <= i < j < rest.len() && (#[trigger] rest[i]).0 == (#[trigger] rest[j]).0 implies rest[i].1
            != VertexKind::NamedSet.text() by {
            assert(rest[i] == level[i] && rest[j] == level[j]);
        }
        lemma_sets_apart(rest);
        lemma_sets_of(rest);
        assert forall|s: int, t: int| 0 <= s < t < sets.len() implies #[trigger] sets[s]
            != #[trigger] sets[t] by {
            if t == sets_of(rest).len() {
                let i = choose|i: int|
                    0 <= i < rest.len() && #[trigger] rest[i] == (
                        #[trigger] sets_of(rest)[s],
                        VertexKind::NamedSet.text(),
                    );
                assert(rest[i] == level[i]);
                assert(level[level.len() - 1].0 == sets[t]);
            }
        }
    }
}

/// The tests of a level that holds no test twice are distinct.
pub proof fn lemma_tests_apart(names: Seq<Entry>, level: Seq<Kinded>)
    requires
        forall|i: int, j: int|
            0 <= i < j < level.len() && (#[trigger] level[i]).0 == (#[trigger] level[j]).0
                ==> level[i].1 != VertexKind::Test.text(),
    ensures
        forall|s: int, t: int|
            0 <= s < t < tests_of(names, level).len() ==> (#[trigger] tests_of(names, level)[s]).1 != (
            #[trigger] tests_of(names, level)[t]).1,
    decreases level.len(),
{
    if level.len() > 0 {
        let rest = level.drop_last();
        let tests = tests_of(names, level);
        assert forall|i: int, j: int|
            0 <= i < j < rest.len() && (#[trigger] rest[i]).0 == (#[trigger] rest[j]).0 implies rest[i].1
            != VertexKind::Test.text() by {
            assert(rest[i] == level[i] && rest[j] == level[j]);
        }
        lemma_tests_apart(names, rest);
        lemma_tests_of(names, rest);
        assert forall|s: int, t: int| 0 <= s < t < tests.len() implies (#[trigger] tests[s]).1 != (
        #[trigger] tests[t]).1 by {
            if t == tests_of(names, rest).len() {
                let i = choose|i: int|
                    0 <= i < rest.len() && #[trigger] rest[i] == (
                        tests_of(names, rest)[s].1,
                        VertexKind::Test.text(),
                    );
                assert(rest[i] == level[i]);
                assert(level[level.len() - 1].0 == tests[t].1);
            }
        }
    }
}

impl Repo {
    /// A named vertex beneath `root` has a longer name than `root`: by a
    /// character at least for each level between the two.
    pub proof fn lemma_beneath_longer(&self, root: u128, x: u128, depth: nat)
        requires
            self.wf(),
            self.name_of(x).is_some(),
            self.beneath(root, x, depth),
        ensures
            self.name_of(root).is_some(),
            self.name_of(root).unwrap().len() + depth <= self.name_of(x).unwrap().len(),
        decreases depth,
    {
        self.lemma_wf();
        if depth > 0 {
            let s = choose|s: u128|
                #![trigger self.linked(x, EdgeKind::IsIn, s)]
                self.is_vertex(s, VertexKind::NamedSet) && self.linked(x, EdgeKind::IsIn, s)
                    && self.beneath(root, s, (depth - 1) as nat);
            let name = self.name_of(x).unwrap();
            lemma_parent_shorter(name);
            assert(self.id_of(parent_of(name).unwrap()) == Some(s));
            assert(self.name_of(s) == Some(parent_of(name).unwrap()));
            self.lemma_beneath_longer(root, s, (depth - 1) as nat);
        }
    }

    /// A named vertex lies at one depth beneath `root`.
    pub proof fn lemma_one_depth(&self, root: u128, x: u128, a: nat, b: nat)
        requires
            self.wf(),
            self.name_of(x).is_some(),
            self.beneath(root, x, a),
            self.beneath(root, x, b),
        ensures
            a == b,
        decreases a,
    {
        self.lemma_wf();
        if a == 0 || b == 0 {
            self.lemma_beneath_longer(root, x, a);
            self.lemma_beneath_longer(root, x, b);
        } else {
            let s = choose|s: u128|
                #![trigger self.linked(x, EdgeKind::IsIn, s)]
                self.is_vertex(s, VertexKind::NamedSet) && self.linked(x, EdgeKind::IsIn, s)
                    && self.beneath(root, s, (a - 1) as nat);
            let t = choose|t: u128|
                #![trigger self.linked(x, EdgeKind::IsIn, t)]
                self.is_vertex(t, VertexKind::NamedSet) && self.linked(x, EdgeKind::IsIn, t)
                    && self.beneath(root, t, (b - 1) as nat);
            let name = self.name_of(x).unwrap();
            assert(self.id_of(parent_of(name).unwrap()) == Some(s));
            assert(self.id_of(parent_of(name).unwrap()) == Some(t));
            assert(self.name_of(s).is_some());
            self.lemma_one_depth(root, s, (a - 1) as nat, (b - 1) as nat);
        }
    }

    /// A vertex that a level holds at two places is in two of the sets
    /// that the level was fetched from: at the first place it came with one
    /// set, at the second with a later one.
    pub proof fn lemma_twice_below(&self, sets: Seq<u128>, level: Seq<Kinded>)
        requires
            self.is_below(sets, level),
        ensures
            forall|i: int, j: int|
                0 <= i < j < level.len() && (#[trigger] level[i]).0 == (#[trigger] level[j]).0
                    ==> exists|s: int, t: int|
                    0 <= s < t < sets.len() && self.linked(
                        level[i].0,
                        EdgeKind::IsIn,
                        #[trigger] sets[s],
                    ) && self.linked(level[j].0, EdgeKind::IsIn, #[trigger] sets[t]),
        decreases sets.len(),
    {
        if sets.len() > 0 {
            let rest = sets.drop_last();
            let (before, part) = choose|before: Seq<Kinded>, part: Seq<Kinded>|
                #![trigger before + part]
                {
                    &&& self.is_below(sets.drop_last(), before)
                    &&& self.first_into(
                        sets.last(),
                        EdgeKind::IsIn,
                        LEVEL_LIMIT - before.len(),
                        part,
                    )
                    &&& level == before + part
                };
            self.lemma_twice_below(rest, before);
            self.lemma_is_below(rest, before);
            assert forall|i: int, j: int|
                0 <= i < j < level.len() && (#[trigger] level[i]).0 == (#[trigger] level[j]).0 implies exists|
                s: int,
                t: int,
            |
                0 <= s < t < sets.len() && self.linked(level[i].0, EdgeKind::IsIn, #[trigger] sets[s])
                    && self.linked(level[j].0, EdgeKind::IsIn, #[trigger] sets[t]) by {
                if j < before.len() {
                    assert(level[i] == before[i] && level[j] == before[j]);
                    let (s, t) = choose|s: int, t: int|
                        0 <= s < t < rest.len() && self.linked(
                            before[i].0,
                            EdgeKind::IsIn,
                            #[trigger] rest[s],
                        ) && self.linked(before[j].0, EdgeKind::IsIn, #[trigger] rest[t]);
                    assert(sets[s] == rest[s] && sets[t] == rest[t]);
                } else if i < before.len() {
                    assert(level[i] == before[i]);
                    let s = choose|s: int|
                        0 <= s < rest.len() && self.linked(
                            before[i].0,
                            EdgeKind::IsIn,
                            #[trigger] rest[s],
                        );
                    assert(sets[s] == rest[s]);
                    let t = sets.len() - 1;
                    assert(level[j] == part[j - before.len()]);
                    assert(self.sources(EdgeKind::IsIn, sets.last()).contains(part[j - before.len()].0));
                    assert(self.linked(level[j].0, EdgeKind::IsIn, sets[t]));
                } else {
                    assert(level[i] == part[i - before.len()]);
                    assert(level[j] == part[j - before.len()]);
                }
            }
        }
    }

    /// What a level of a descent holds: vertices of the graph with their
    /// kinds, each as many levels beneath the root as the level is, and no
    /// named vertex twice.
    pub proof fn lemma_level(&self, root: u128, levels: Seq<Seq<Kinded>>, d: int)
        requires
            self.wf(),
            self.descends(root, levels),
            0 <= d < levels.len(),
        ensures
            self.holds_all(levels[d]),
            forall|j: int|
                0 <= j < levels[d].len() ==> self.beneath(root, (#[trigger] levels[d][j]).0, d as nat),
            forall|i: int, j: int|
                0 <= i < j < levels[d].len() && (#[trigger] levels[d][i]).0 == (
                #[trigger] levels[d][j]).0 ==> self.name_of(levels[d][i].0).is_none(),
        decreases d,
    {
        self.lemma_wf();
        VertexKind::lemma_texts_differ();
        let level = levels[d];
        if d > 0 {
            let up = levels[d - 1];
            let sets = sets_of(up);
            self.lemma_level(root, levels, d - 1);
            assert(self.is_below(sets, level));
            self.lemma_is_below(sets, level);
            self.lemma_twice_below(sets, level);
            lemma_sets_of(up);
            assert forall|t: int| 0 <= t < sets.len() implies self.is_vertex(
                #[trigger] sets[t],
                VertexKind::NamedSet,
            ) && self.beneath(root, sets[t], (d - 1) as nat) by {
                let j = choose|j: int|
                    0 <= j < up.len() && #[trigger] up[j] == (
                        #[trigger] sets_of(up)[t],
                        VertexKind::NamedSet.text(),
                    );
                assert(self.vertices().contains_key(up[j].0));
            }
            assert forall|i: int, j: int|
                0 <= i < j < up.len() && (#[trigger] up[i]).0 == (#[trigger] up[j]).0 implies up[i].1
                != VertexKind::NamedSet.text() by {
                assert(self.vertices().contains_key(up[i].0));
            }
            lemma_sets_apart(up);
            assert forall|j: int| 0 <= j < level.len() implies self.beneath(
                root,
                (#[trigger] level[j]).0,
                d as nat,
            ) by {
                let t = choose|t: int|
                    0 <= t < sets.len() && self.linked(level[j].0, EdgeKind::IsIn, #[trigger] sets[t]);
                assert(self.linked(level[j].0, EdgeKind::IsIn, sets[t]));
                assert(self.beneath(root, sets[t], (d - 1) as nat));
            }
            assert forall|i: int, j: int|
                0 <= i < j < level.len() && (#[trigger] level[i]).0 == (
                #[trigger] level[j]).0 implies self.name_of(level[i].0).is_none() by {
                if self.name_of(level[i].0).is_some() {
                    let (s, t) = choose|s: int, t: int|
                        0 <= s < t < sets.len() && self.linked(
                            level[i].0,
                            EdgeKind::IsIn,
                            #[trigger] sets[s],
                        ) && self.linked(level[j].0, EdgeKind::IsIn, #[trigger] sets[t]);
                    let name = self.name_of(level[i].0).unwrap();
                    assert(self.id_of(parent_of(name).unwrap()) == Some(sets[s]));
                    assert(self.id_of(parent_of(name).unwrap()) == Some(sets[t]));
                }
            }
        }
    }

    /// `tests` are tests of the graph, each under its own name and fewer
    /// than `depth` levels beneath `root`; none is listed twice, and none
    /// before one that lies less deep.
    pub open spec fn in_levels(&self, root: u128, tests: Seq<Entry>, depth: nat) -> bool {
        &&& forall|k: int|
            0 <= k < tests.len() ==> {
                &&& self.is_vertex((#[trigger] tests[k]).1, VertexKind::Test)
                &&& self.id_of(tests[k].0) == Some(tests[k].1)
                &&& self.name_of(tests[k].1) == Some(tests[k].0)
                &&& exists|d: nat| d < depth && #[trigger] self.beneath(root, tests[k].1, d)
            }
        &&& forall|i: int, k: int|
            0 <= i < k < tests.len() ==> (#[trigger] tests[i]).1 != (#[trigger] tests[k]).1
        &&& forall|i: int, k: int, a: nat, b: nat|
            #![trigger self.beneath(root, tests[i].1, a), self.beneath(root, tests[k].1, b)]
            0 <= i < k < tests.len() && self.beneath(root, tests[i].1, a) && self.beneath(
                root,
                tests[k].1,
                b,
            ) ==> a <= b
    }

    /// The tests of the first `n` levels of a descent, level by level, are
    /// in levels.
    pub proof fn lemma_tests_along_levels(&self, root: u128, levels: Seq<Seq<Kinded>>, n: int)
        requires
            self.wf(),
            self.descends(root, levels),
            0 <= n <= levels.len(),
        ensures
            self.in_levels(root, Self::tests_along(self.names(), levels.take(n)), n as nat),
        decreases n,
    {
        let names = self.names();
        let all = Self::tests_along(names, levels.take(n));
        if n > 0 {
            self.lemma_wf();
            VertexKind::lemma_texts_differ();
            let level = levels[n - 1];
            let before = Self::tests_along(names, levels.take(n - 1));
            let added = tests_of(names, level);
            assert(levels.take(n).drop_last() =~= levels.take(n - 1));
            assert(levels.take(n).last() == level);
            assert(all == before + added);
            self.lemma_tests_along_levels(root, levels, n - 1);
            self.lemma_level(root, levels, n - 1);
            lemma_tests_of(names, level);
            assert forall|i: int, j: int|
                0 <= i < j < level.len() && (#[trigger] level[i]).0 == (#[trigger] level[j]).0 implies level[i].1
                != VertexKind::Test.text() by {
                assert(self.vertices().contains_key(level[i].0));
            }
            lemma_tests_apart(names, level);
            // Each of the added tests is a named test of the level.
            assert forall|k: int| 0 <= k < added.len() implies {
                &&& self.is_vertex((#[trigger] added[k]).1, VertexKind::Test)
                &&& self.id_of(added[k].0) == Some(added[k].1)
                &&& self.name_of(added[k].1) == Some(added[k].0)
                &&& self.beneath(root, added[k].1, (n - 1) as nat)
            } by {
                let j = choose|j: int|
                    0 <= j < level.len() && #[trigger] level[j] == (
                        tests_of(names, level)[k].1,
                        VertexKind::Test.text(),
                    );
                assert(self.vertices().contains_key(level[j].0));
                assert(self.beneath(root, level[j].0, (n - 1) as nat));
            }
            assert forall|k: int| 0 <= k < all.len() implies {
                &&& self.is_vertex((#[trigger] all[k]).1, VertexKind::Test)
                &&& self.id_of(all[k].0) == Some(all[k].1)
                &&& self.name_of(all[k].1) == Some(all[k].0)
                &&& exists|d: nat| d < n && #[trigger] self.beneath(root, all[k].1, d)
            } by {
                if k < before.len() {
                    assert(all[k] == before[k]);
                    let d = choose|d: nat| d < n - 1 && #[trigger] self.beneath(root, before[k].1, d);
                    assert(self.beneath(root, all[k].1, d));
                } else {
                    assert(all[k] == added[k - before.len()]);
                    assert(self.beneath(root, all[k].1, (n - 1) as nat));
                }
            }
            assert forall|i: int, k: int, a: nat, b: nat|
                #![trigger self.beneath(root, all[i].1, a), self.beneath(root, all[k].1, b)]
                0 <= i < k < all.len() && self.beneath(root, all[i].1, a) && self.beneath(
                    root,
                    all[k].1,
                    b,
                ) implies a <= b by {
                if k < before.len() {
                    assert(all[i] == before[i] && all[k] == before[k]);
                } else {
                    assert(all[k] == added[k - before.len()]);
                    self.lemma_one_depth(root, all[k].1, b, (n - 1) as nat);
                    if i < before.len() {
                        assert(all[i] == before[i]);
                        let d = choose|d: nat|
                            d < n - 1 && #[trigger] self.beneath(root, before[i].1, d);
                        self.lemma_one_depth(root, all[i].1, a, d);
                    } else {
                        assert(all[i] == added[i - before.len()]);
                        self.lemma_one_depth(root, all[i].1, a, (n - 1) as nat);
                    }
                }
            }
            assert forall|i: int, k: int| 0 <= i < k < all.len() implies (#[trigger] all[i]).1 != (
            #[trigger] all[k]).1 by {
                if k < before.len() {
                    assert(all[i] == before[i] && all[k] == before[k]);
                } else if i < before.len() {
                    assert(all[i] == before[i]);
                    assert(all[k] == added[k - before.len()]);
                    let d = choose|d: nat|
                        d < n - 1 && #[trigger] self.beneath(root, before[i].1, d);
                    if all[i].1 == all[k].1 {
                        self.lemma_one_depth(root, all[i].1, d, (n - 1) as nat);
                    }
                } else {
                    assert(all[i] == added[i - before.len()]);
                    assert(all[k] == added[k - before.len()]);
                }
            }
        } else {
            assert(levels.take(0) =~= Seq::<Seq<Kinded>>::empty());
        }
    }

    /// The tests that a descent finds are tests of the graph, each under
    /// its own name and fewer than ten levels beneath the root; none is
    /// found twice, and they come level by level.
    pub proof fn lemma_discovered(&self, root: u128, tests: Seq<Entry>)
        requires
            self.wf(),
            self.discovers(root, tests),
        ensures
            self.in_levels(root, tests, DEPTH_LIMIT as nat),
    {
        let names = self.names();
        let levels = choose|levels: Seq<Seq<Kinded>>|
            #![trigger self.descends(root, levels)]
            {
                &&& self.descends(root, levels)
                &&& levels.len() <= DEPTH_LIMIT + 1
                &&& tests.len() <= Self::tests_along(names, levels.drop_last()).len()
                &&& tests == Self::tests_along(names, levels.drop_last()).take(tests.len() as int)
            };
        let n = levels.len() - 1;
        let all = Self::tests_along(names, levels.take(n));
        assert(levels.drop_last() =~= levels.take(n));
        self.lemma_tests_along_levels(root, levels, n);
        assert forall|k: int| 0 <= k < tests.len() implies {
            &&& self.is_vertex((#[trigger] tests[k]).1, VertexKind::Test)
            &&& self.id_of(tests[k].0) == Some(tests[k].1)
            &&& self.name_of(tests[k].1) == Some(tests[k].0)
            &&& exists|d: nat| d < DEPTH_LIMIT && #[trigger] self.beneath(root, tests[k].1, d)
        } by {
            assert(tests[k] == all[k]);
            let d = choose|d: nat| d < n && #[trigger] self.beneath(root, all[k].1, d);
            assert(self.beneath(root, tests[k].1, d));
        }
        assert forall|i: int, k: int| 0 <= i < k < tests.len() implies (#[trigger] tests[i]).1 != (
        #[trigger] tests[k]).1 by {
            assert(tests[i] == all[i] && tests[k] == all[k]);
        }
        assert forall|i: int, k: int, a: nat, b: nat|
            #![trigger self.beneath(root, tests[i].1, a), self.beneath(root, tests[k].1, b)]
            0 <= i < k < tests.len() && self.beneath(root, tests[i].1, a) && self.beneath(
                root,
                tests[k].1,
                b,
            ) implies a <= b by {
            assert(tests[i] == all[i] && tests[k] == all[k]);
        }
    }

    /// Beneath a root that is a test, every level but the first is empty.
    proof fn lemma_levels_of_test(&self, root: u128, levels: Seq<Seq<Kinded>>, d: int)
        requires
            self.is_vertex(root, VertexKind::Test),
            self.descends(root, levels),
            1 <= d < levels.len(),
        ensures
            levels[d].len() == 0,
        decreases d,
    {
        VertexKind::lemma_texts_differ();
        if d == 1 {
            assert(sets_of(levels[0]).len() == 0) by {
                reveal_with_fuel(sets_of, 2);
            }
        } else {
            self.lemma_levels_of_test(root, levels, d - 1);
        }
        assert(self.is_below(sets_of(levels[d - 1]), levels[d]));
    }

    /// Where every level but the first is empty, the tests of the levels
    /// are those of the first.
    proof fn lemma_tests_of_top(names: Seq<Entry>, levels: Seq<Seq<Kinded>>)
        requires
            levels.len() >= 1,
            forall|d: int| 1 <= d < levels.len() ==> (#[trigger] levels[d]).len() == 0,
        ensures
            Self::tests_along(names, levels) == tests_of(names, levels[0]),
        decreases levels.len(),
    {
        if levels.len() == 1 {
            assert(Self::tests_along(names, levels.drop_last()).len() == 0);
            assert(Self::tests_along(names, levels) =~= tests_of(names, levels[0]));
        } else {
            let rest = levels.drop_last();
            assert forall|d: int| 1 <= d < rest.len() implies (#[trigger] rest[d]).len() == 0 by {
                assert(rest[d] == levels[d]);
            }
            Self::lemma_tests_of_top(names, rest);
            assert(Self::tests_along(names, levels) =~= tests_of(names, levels[0]));
        }
    }

    /// Beneath a root that is a test, a descent finds the root and nothing
    /// else: a test is not descended into.
    pub proof fn lemma_test_root(&self, root: u128, tests: Seq<Entry>)
        requires
            self.wf(),
            self.is_vertex(root, VertexKind::Test),
            self.discovers(root, tests),
        ensures
            self.name_of(root).is_some(),
            tests == seq![(self.name_of(root).unwrap(), root)],
    {
        self.lemma_wf();
        let names = self.names();
        let levels = choose|levels: Seq<Seq<Kinded>>|
            #![trigger self.descends(root, levels)]
            {
                &&& self.descends(root, levels)
                &&& levels.len() <= DEPTH_LIMIT + 1
                &&& tests.len() <= TEST_LIMIT
                &&& tests.len() <= Self::tests_along(names, levels.drop_last()).len()
                &&& tests == Self::tests_along(names, levels.drop_last()).take(tests.len() as int)
                &&& tests.len() == TEST_LIMIT || tests == Self::tests_along(
                    names,
                    levels.drop_last(),
                )
                &&& tests.len() == TEST_LIMIT || levels.len() == DEPTH_LIMIT + 1
                    || levels.last().len() == 0
            };
        let top = levels[0];
        assert(top == seq![(root, VertexKind::Test.text())]);
        assert(tests_of(names, top) =~= seq![(self.name_of(root).unwrap(), root)]) by {
            reveal_with_fuel(tests_of, 2);
        }
        let upper = levels.drop_last();
        if levels.len() == 1 {
            assert(Self::tests_along(names, upper).len() == 0);
        } else {
            assert forall|d: int| 1 <= d < upper.len() implies (#[trigger] upper[d]).len() == 0 by {
                self.lemma_levels_of_test(root, levels, d);
            }
            assert(upper[0] == top);
            Self::lemma_tests_of_top(names, upper);
        }
    }

    /// A vertex two levels or more beneath `root` lies beneath a set that
    /// is in `root`.
    proof fn lemma_set_between(&self, root: u128, x: u128, depth: nat)
        requires
            depth >= 2,
            self.beneath(root, x, depth),
        ensures
            exists|y: u128|
                self.is_vertex(y, VertexKind::NamedSet) && #[trigger] self.linked(
                    y,
                    EdgeKind::IsIn,
                    root,
                ),
        decreases depth,
    {
        let s = choose|s: u128|
            #![trigger self.linked(x, EdgeKind::IsIn, s)]
            self.is_vertex(s, VertexKind::NamedSet) && self.linked(x, EdgeKind::IsIn, s)
                && self.beneath(root, s, (depth - 1) as nat);
        if depth == 2 {
            let up = choose|up: u128|
                #![trigger self.linked(s, EdgeKind::IsIn, up)]
                self.is_vertex(up, VertexKind::NamedSet) && self.linked(s, EdgeKind::IsIn, up)
                    && self.beneath(root, up, 0);
            assert(self.linked(s, EdgeKind::IsIn, root));
        } else {
            self.lemma_set_between(root, s, (depth - 1) as nat);
        }
    }

    /// Beneath a set that holds nothing but tests, a descent finds the
    /// tests in the order of their identifiers.
    pub proof fn lemma_flat_set_in_order(&self, root: u128, tests: Seq<Entry>)
        requires
            self.wf(),
            self.is_vertex(root, VertexKind::NamedSet),
            forall|x: u128|
                #![trigger self.linked(x, EdgeKind::IsIn, root)]
                self.linked(x, EdgeKind::IsIn, root) ==> self.is_vertex(x, VertexKind::Test),
            self.discovers(root, tests),
        ensures
            forall|i: int, k: int|
                0 <= i < k < tests.len() ==> (#[trigger] tests[i]).1 < (#[trigger] tests[k]).1,
    {
        VertexKind::lemma_texts_differ();
        let names = self.names();
        let levels = choose|levels: Seq<Seq<Kinded>>|
            #![trigger self.descends(root, levels)]
            {
                &&& self.descends(root, levels)
                &&& levels.len() <= DEPTH_LIMIT + 1
                &&& tests.len() <= Self::tests_along(names, levels.drop_last()).len()
                &&& tests == Self::tests_along(names, levels.drop_last()).take(tests.len() as int)
            };
        let m = levels.len() - 1;
        let top = levels[0];
        assert(levels.drop_last() =~= levels.take(m));
        assert(top == seq![(root, VertexKind::NamedSet.text())]);
        assert(tests_of(names, top).len() == 0) by {
            reveal_with_fuel(tests_of, 2);
        }
        assert(levels.take(1).drop_last() =~= levels.take(0));
        assert(levels.take(0) =~= Seq::<Seq<Kinded>>::empty());
        assert(levels.take(1).last() == top);
        assert(Self::tests_along(names, levels.take(0)) =~= Seq::<Entry>::empty());
        assert(Self::tests_along(names, levels.take(1)).len() == 0);
        if m >= 2 {
            let second = levels[1];
            assert(sets_of(top) =~= seq![root]) by {
                reveal_with_fuel(sets_of, 2);
            }
            assert(self.is_below(sets_of(top), second));
            let (before, part) = choose|before: Seq<Kinded>, part: Seq<Kinded>|
                #![trigger before + part]
                {
                    &&& self.is_below(seq![root].drop_last(), before)
                    &&& self.first_into(
                        seq![root].last(),
                        EdgeKind::IsIn,
                        LEVEL_LIMIT - before.len(),
                        part,
                    )
                    &&& second == before + part
                };
            assert(second =~= part);
            assert forall|j: int| 0 <= j < second.len() implies (#[trigger] second[j]).1
                == VertexKind::Test.text() by {
                assert(self.sources(EdgeKind::IsIn, root).contains(second[j].0));
                assert(self.linked(second[j].0, EdgeKind::IsIn, root));
            }
            lemma_sets_of(second);
            assert(sets_of(second).len() == 0) by {
                if sets_of(second).len() > 0 {
                    let j = choose|j: int|
                        0 <= j < second.len() && #[trigger] second[j] == (
                            #[trigger] sets_of(second)[0],
                            VertexKind::NamedSet.text(),
                        );
                    assert(second[j].1 == VertexKind::Test.text());
                }
            }
            assert forall|d: int| 2 <= d < m implies (#[trigger] levels[d]).len() == 0 by {
                assert(self.is_below(sets_of(levels[1]), levels[2]));
                self.lemma_levels_end(root, levels, 2, d);
            }
            Self::lemma_tests_along_more(names, levels, 2, m);
            assert(levels.take(2).drop_last() =~= levels.take(1));
            assert(levels.take(2).last() == second);
            let all = Self::tests_along(names, levels.take(m));
            assert(all =~= tests_of(names, second));
            lemma_tests_of(names, second);
            assert forall|i: int, k: int| 0 <= i < k < tests.len() implies (#[trigger] tests[i]).1 < (
            #[trigger] tests[k]).1 by {
                assert(tests[i] == all[i] && tests[k] == all[k]);
            }
        }
    }

    /// Beneath a set that holds nothing but tests, a descent finds tests
    /// that are in the set, and none of them twice.
    pub proof fn lemma_flat_set(&self, root: u128, tests: Seq<Entry>)
        requires
            self.wf(),
            self.is_vertex(root, VertexKind::NamedSet),
            forall|x: u128|
                #![trigger self.linked(x, EdgeKind::IsIn, root)]
                self.linked(x, EdgeKind::IsIn, root) ==> self.is_vertex(x, VertexKind::Test),
            self.discovers(root, tests),
        ensures
            forall|k: int|
                0 <= k < tests.len() ==> self.linked((#[trigger] tests[k]).1, EdgeKind::IsIn, root),
            forall|i: int, k: int|
                0 <= i < k < tests.len() ==> (#[trigger] tests[i]).1 != (#[trigger] tests[k]).1,
    {
        VertexKind::lemma_texts_differ();
        self.lemma_discovered(root, tests);
        assert forall|k: int| 0 <= k < tests.len() implies self.linked(
            (#[trigger] tests[k]).1,
            EdgeKind::IsIn,
            root,
        ) by {
            let x = tests[k].1;
            let d = choose|d: nat| d < DEPTH_LIMIT && #[trigger] self.beneath(root, x, d);
            if d == 1 {
                let s = choose|s: u128|
                    #![trigger self.linked(x, EdgeKind::IsIn, s)]
                    self.is_vertex(s, VertexKind::NamedSet) && self.linked(x, EdgeKind::IsIn, s)
                        && self.beneath(root, s, 0);
                assert(s == root);
            } else if d >= 2 {
                self.lemma_set_between(root, x, d);
            }
        }
    }

    /// What is in some sets, set by set, is determined by the graph.
    pub proof fn lemma_is_below_unique(&self, sets: Seq<u128>, a: Seq<Kinded>, b: Seq<Kinded>)
        requires
            self.is_below(sets, a),
            self.is_below(sets, b),
        ensures
            a == b,
        decreases sets.len(),
    {
        if sets.len() == 0 {
            assert(a =~= b);
        } else {
            let (before_a, part_a) = choose|before: Seq<Kinded>, part: Seq<Kinded>|
                #![trigger before + part]
                {
                    &&& self.is_below(sets.drop_last(), before)
                    &&& self.first_into(
                        sets.last(),
                        EdgeKind::IsIn,
                        LEVEL_LIMIT - before.len(),
                        part,
                    )
                    &&& a == before + part
                };
            let (before_b, part_b) = choose|before: Seq<Kinded>, part: Seq<Kinded>|
                #![trigger before + part]
                {
                    &&& self.is_below(sets.drop_last(), before)
                    &&& self.first_into(
                        sets.last(),
                        EdgeKind::IsIn,
                        LEVEL_LIMIT - before.len(),
                        part,
                    )
                    &&& b == before + part
                };
            self.lemma_is_below_unique(sets.drop_last(), before_a, before_b);
            self.lemma_first_into_unique(
                sets.last(),
                EdgeKind::IsIn,
                LEVEL_LIMIT - before_a.len(),
                part_a,
                part_b,
            );
        }
    }

    /// Two descents from one root hold the same levels, as far as both go.
    pub proof fn lemma_levels_agree(
        &self,
        root: u128,
        a: Seq<Seq<Kinded>>,
        b: Seq<Seq<Kinded>>,
        d: int,
    )
        requires
            self.descends(root, a),
            self.descends(root, b),
            0 <= d < a.len(),
            d < b.len(),
        ensures
            a[d] == b[d],
        decreases d,
    {
        if d == 0 {
            assert(a[0] =~= b[0]);
        } else {
            self.lemma_levels_agree(root, a, b, d - 1);
            assert(self.is_below(sets_of(a[d - 1]), a[d]));
            assert(self.is_below(sets_of(b[d - 1]), b[d]));
            self.lemma_is_below_unique(sets_of(a[d - 1]), a[d], b[d]);
        }
    }

    /// After an empty level every level is empty.
    proof fn lemma_levels_end(&self, root: u128, levels: Seq<Seq<Kinded>>, e: int, d: int)
        requires
            self.descends(root, levels),
            0 <= e <= d < levels.len(),
            levels[e].len() == 0,
        ensures
            levels[d].len() == 0,
        decreases d - e,
    {
        if d > e {
            self.lemma_levels_end(root, levels, e, d - 1);
            assert(self.is_below(sets_of(levels[d - 1]), levels[d]));
        }
    }

    /// The tests of more levels begin with the tests of fewer, and are the
    /// same where the further levels are empty.
    proof fn lemma_tests_along_more(names: Seq<Entry>, levels: Seq<Seq<Kinded>>, n: int, m: int)
        requires
            0 <= n <= m <= levels.len(),
        ensures
            Self::tests_along(names, levels.take(n)).len() <= Self::tests_along(
                names,
                levels.take(m),
            ).len(),
            forall|k: int|
                0 <= k < Self::tests_along(names, levels.take(n)).len() ==> Self::tests_along(
                    names,
                    levels.take(n),
                )[k] == #[trigger] Self::tests_along(names, levels.take(m))[k],
            (forall|d: int| n <= d < m ==> (#[trigger] levels[d]).len() == 0) ==> Self::tests_along(
                names,
                levels.take(n),
            ) == Self::tests_along(names, levels.take(m)),
        decreases m - n,
    {
        if n < m {
            Self::lemma_tests_along_more(names, levels, n, m - 1);
            assert(levels.take(m).drop_last() =~= levels.take(m - 1));
            assert(levels.take(m).last() == levels[m - 1]);
            let fewer = Self::tests_along(names, levels.take(m - 1));
            let more = Self::tests_along(names, levels.take(m));
            assert(more == fewer + tests_of(names, levels[m - 1]));
            if forall|d: int| n <= d < m ==> (#[trigger] levels[d]).len() == 0 {
                assert(levels[m - 1].len() == 0);
                assert(more =~= fewer);
            }
        }
    }

    /// Of two descents from one root, the one with fewer levels finds what
    /// the other finds.
    proof fn lemma_same_tests(
        &self,
        root: u128,
        short: Seq<Seq<Kinded>>,
        a: Seq<Entry>,
        long: Seq<Seq<Kinded>>,
        b: Seq<Entry>,
    )
        requires
            self.descends(root, short),
            self.descends(root, long),
            short.len() <= long.len() <= DEPTH_LIMIT + 1,
            a.len() <= TEST_LIMIT,
            a.len() <= Self::tests_along(self.names(), short.drop_last()).len(),
            a == Self::tests_along(self.names(), short.drop_last()).take(a.len() as int),
            a.len() == TEST_LIMIT || a == Self::tests_along(self.names(), short.drop_last()),
            a.len() == TEST_LIMIT || short.len() == DEPTH_LIMIT + 1 || short.last().len() == 0,
            b.len() <= TEST_LIMIT,
            b.len() <= Self::tests_along(self.names(), long.drop_last()).len(),
            b == Self::tests_along(self.names(), long.drop_last()).take(b.len() as int),
            b.len() == TEST_LIMIT || b == Self::tests_along(self.names(), long.drop_last()),
        ensures
            a == b,
    {
        let names = self.names();
        let n = short.len() - 1;
        let m = long.len() - 1;
        assert forall|d: int| 0 <= d < n implies short[d] == long[d] by {
            self.lemma_levels_agree(root, short, long, d);
        }
        assert(short.drop_last() =~= long.take(n));
        assert(long.drop_last() =~= long.take(m));
        let fewer = Self::tests_along(names, long.take(n));
        let more = Self::tests_along(names, long.take(m));
        Self::lemma_tests_along_more(names, long, n, m);
        if a.len() < TEST_LIMIT && n < m {
            self.lemma_levels_agree(root, short, long, n);
            assert forall|d: int| n <= d < m implies (#[trigger] long[d]).len() == 0 by {
                self.lemma_levels_end(root, long, n, d);
            }
            assert(fewer == more);
        }
        assert(a.len() == b.len());
        assert forall|k: int| 0 <= k < a.len() implies a[k] == b[k] by {
            assert(a[k] == fewer[k]);
            assert(b[k] == more[k]);
        }
        assert(a =~= b);
    }

    /// What a descent from a root finds is determined by the graph and the
    /// names.
    pub proof fn lemma_discovers_unique(&self, root: u128, a: Seq<Entry>, b: Seq<Entry>)
        requires
            self.discovers(root, a),
            self.discovers(root, b),
        ensures
            a == b,
    {
        let names = self.names();
        let la = choose|levels: Seq<Seq<Kinded>>|
            #![trigger self.descends(root, levels)]
            {
                &&& self.descends(root, levels)
                &&& levels.len() <= DEPTH_LIMIT + 1
                &&& a.len() <= TEST_LIMIT
                &&& a.len() <= Self::tests_along(names, levels.drop_last()).len()
                &&& a == Self::tests_along(names, levels.drop_last()).take(a.len() as int)
                &&& a.len() == TEST_LIMIT || a == Self::tests_along(names, levels.drop_last())
                &&& a.len() == TEST_LIMIT || levels.len() == DEPTH_LIMIT + 1
                    || levels.last().len() == 0
            };
        let lb = choose|levels: Seq<Seq<Kinded>>|
            #![trigger self.descends(root, levels)]
            {
                &&& self.descends(root, levels)
                &&& levels.len() <= DEPTH_LIMIT + 1
                &&& b.len() <= TEST_LIMIT
                &&& b.len() <= Self::tests_along(names, levels.drop_last()).len()
                &&& b == Self::tests_along(names, levels.drop_last()).take(b.len() as int)
                &&& b.len() == TEST_LIMIT || b == Self::tests_along(names, levels.drop_last())
                &&& b.len() == TEST_LIMIT || levels.len() == DEPTH_LIMIT + 1
                    || levels.last().len() == 0
            };
        if la.len() <= lb.len() {
            self.lemma_same_tests(root, la, a, lb, b);
        } else {
            self.lemma_same_tests(root, lb, b, la, a);
        }
    }
}

} // verus!
