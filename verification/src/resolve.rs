//! What a traversal of the graph found, resolved against the name index:
//! which of the vertices are named, which are tests, which are sets.

use vstd::prelude::*;

use crate::kinds::VertexKind;
use crate::name_index::{find_name, Entry, NameIndex};
use crate::protocol::VertInfo;
use crate::store::Found;

verus! {

/// A found vertex as a plain value: its identifier and the text of its kind.
pub type Kinded = (u128, Seq<char>);

/// The named vertices among `found`, each with its name, in the order of
/// `found`.
pub open spec fn named_of(names: Seq<Entry>, found: Seq<Kinded>) -> Seq<Entry>
    decreases found.len(),
{
    if found.len() == 0 {
        Seq::empty()
    } else {
        match find_name(names, found.last().0) {
            Some(name) => named_of(names, found.drop_last()).push((name, found.last().0)),
            None => named_of(names, found.drop_last()),
        }
    }
}

/// The name of `id`, or the empty name where it has none.
pub open spec fn name_or_empty(names: Seq<Entry>, id: u128) -> Seq<char> {
    match find_name(names, id) {
        Some(name) => name,
        None => Seq::empty(),
    }
}

/// The tests among `found`, each with its name, in the order of `found`.
pub open spec fn tests_of(names: Seq<Entry>, found: Seq<Kinded>) -> Seq<Entry>
    decreases found.len(),
{
    if found.len() == 0 {
        Seq::empty()
    } else if found.last().1 == VertexKind::Test.text() {
        tests_of(names, found.drop_last()).push(
            (name_or_empty(names, found.last().0), found.last().0),
        )
    } else {
        tests_of(names, found.drop_last())
    }
}

/// The sets among `found`, in the order of `found`.
pub open spec fn sets_of(found: Seq<Kinded>) -> Seq<u128>
    decreases found.len(),
{
    if found.len() == 0 {
        Seq::empty()
    } else if found.last().1 == VertexKind::NamedSet.text() {
        sets_of(found.drop_last()).push(found.last().0)
    } else {
        sets_of(found.drop_last())
    }
}

/// The vertices of `found`, each with the given verdict.
pub open spec fn judged(found: Seq<Kinded>, passed: bool) -> Seq<(u128, bool)> {
    found.map_values(|f: Kinded| (f.0, passed))
}

/// `id` is among `found`.
pub open spec fn among(found: Seq<Kinded>, id: u128) -> bool {
    exists|j: int| 0 <= j < found.len() && (#[trigger] found[j]).0 == id
}

/// The identifiers of `found` increase strictly.
pub open spec fn rising(found: Seq<Kinded>) -> bool {
    forall|i: int, j: int| 0 <= i < j < found.len() ==> (#[trigger] found[i]).0 < (#[trigger] found[j]).0
}

/// `found`, which may hold `limit` vertices, reaches `id`: it is not full,
/// or `id` does not come after its last vertex.
pub open spec fn reaches(found: Seq<Kinded>, limit: int, id: u128) -> bool {
    found.len() < limit || (found.len() > 0 && id <= found.last().0)
}

/// `found` holds the first `limit` of the `wanted` vertices in the order of
/// their identifiers, or all of them, where there are no more.
pub open spec fn first_of(wanted: Set<u128>, limit: int, found: Seq<Kinded>) -> bool {
    &&& found.len() <= limit
    &&& rising(found)
    &&& forall|j: int| 0 <= j < found.len() ==> wanted.contains((#[trigger] found[j]).0)
    &&& forall|x: u128| #[trigger] wanted.contains(x) && reaches(found, limit, x) ==> among(found, x)
}

/// Two lists of the first `limit` of the same vertices hold the same
/// vertices at the same places, as far as the first of them goes.
proof fn lemma_first_of_agree(wanted: Set<u128>, limit: int, a: Seq<Kinded>, b: Seq<Kinded>, i: int)
    requires
        first_of(wanted, limit, a),
        first_of(wanted, limit, b),
        0 <= i < a.len(),
    ensures
        i < b.len(),
        forall|j: int| 0 <= j <= i ==> (#[trigger] a[j]).0 == b[j].0,
    decreases i,
{
    if i > 0 {
        lemma_first_of_agree(wanted, limit, a, b, i - 1);
    }
    let x = a[i].0;
    if b.len() <= i {
        // `b` is not full, so it reaches `x`, but holds it nowhere.
        let k = choose|k: int| 0 <= k < b.len() && (#[trigger] b[k]).0 == x;
        assert(a[k].0 == b[k].0);
    }
    let y = b[i].0;
    if x < y {
        let k = choose|k: int| 0 <= k < b.len() && (#[trigger] b[k]).0 == x;
        if k < i {
            assert(a[k].0 == b[k].0);
        }
    } else if y < x {
    }
}

/// The first `limit` of some vertices in the order of their identifiers
/// are determined: two lists of them hold the same vertices at the same
/// places.
pub proof fn lemma_first_of_unique(wanted: Set<u128>, limit: int, a: Seq<Kinded>, b: Seq<Kinded>)
    requires
        first_of(wanted, limit, a),
        first_of(wanted, limit, b),
    ensures
        a.len() == b.len(),
        forall|j: int| 0 <= j < a.len() ==> (#[trigger] a[j]).0 == b[j].0,
{
    if a.len() > 0 {
        lemma_first_of_agree(wanted, limit, a, b, a.len() - 1);
    }
    if b.len() > 0 {
        lemma_first_of_agree(wanted, limit, b, a, b.len() - 1);
    }
}

/// What `named_of` keeps: every entry is a vertex of `found` with its name,
/// every named vertex of `found` is kept, and the order of `found` stays.
pub proof fn lemma_named_of(names: Seq<Entry>, found: Seq<Kinded>)
    ensures
        named_of(names, found).len() <= found.len(),
        forall|k: int|
            0 <= k < named_of(names, found).len() ==> {
                &&& find_name(names, (#[trigger] named_of(names, found)[k]).1) == Some(
                    named_of(names, found)[k].0,
                )
                &&& among(found, named_of(names, found)[k].1)
            },
        forall|j: int|
            0 <= j < found.len() && find_name(names, (#[trigger] found[j]).0).is_some() ==> exists|
                k: int,
            |
                0 <= k < named_of(names, found).len() && (#[trigger] named_of(names, found)[k]).1
                    == found[j].0,
        rising(found) ==> forall|i: int, k: int|
            0 <= i < k < named_of(names, found).len() ==> (#[trigger] named_of(names, found)[i]).1 < (
            #[trigger] named_of(names, found)[k]).1,
    decreases found.len(),
{
    if found.len() > 0 {
        let rest = found.drop_last();
        let before = named_of(names, rest);
        let now = named_of(names, found);
        lemma_named_of(names, rest);
        assert forall|j: int|
            0 <= j < found.len() && find_name(names, (#[trigger] found[j]).0).is_some() implies exists|
            k: int,
        | 0 <= k < now.len() && (#[trigger] now[k]).1 == found[j].0 by {
            if j < rest.len() {
                let k = choose|k: int| 0 <= k < before.len() && (#[trigger] before[k]).1 == rest[j].0;
                assert(now[k] == before[k]);
            } else {
                assert(now[now.len() - 1].1 == found[j].0);
            }
        }
    }
}

/// What `tests_of` keeps: every entry is a test of `found`, under its name,
/// and where the identifiers of `found` increase, so do those of the tests.
pub proof fn lemma_tests_of(names: Seq<Entry>, found: Seq<Kinded>)
    ensures
        tests_of(names, found).len() <= found.len(),
        forall|k: int|
            0 <= k < tests_of(names, found).len() ==> {
                &&& (#[trigger] tests_of(names, found)[k]).0 == name_or_empty(
                    names,
                    tests_of(names, found)[k].1,
                )
                &&& exists|j: int|
                    0 <= j < found.len() && #[trigger] found[j] == (
                        tests_of(names, found)[k].1,
                        VertexKind::Test.text(),
                    )
            },
        rising(found) ==> forall|i: int, k: int|
            0 <= i < k < tests_of(names, found).len() ==> (#[trigger] tests_of(names, found)[i]).1 < (
            #[trigger] tests_of(names, found)[k]).1,
    decreases found.len(),
{
    if found.len() > 0 {
        let rest = found.drop_last();
        let before = tests_of(names, rest);
        let now = tests_of(names, found);
        lemma_tests_of(names, rest);
        if rising(found) {
            assert(rising(rest)) by {
                assert forall|i: int, j: int| 0 <= i < j < rest.len() implies (#[trigger] rest[i]).0 < (
                #[trigger] rest[j]).0 by {
                    assert(rest[i] == found[i] && rest[j] == found[j]);
                }
            }
            assert forall|i: int, k: int| 0 <= i < k < now.len() implies (#[trigger] now[i]).1 < (
            #[trigger] now[k]).1 by {
                if k == before.len() {
                    let j = choose|j: int|
                        0 <= j < rest.len() && #[trigger] rest[j] == (
                            before[i].1,
                            VertexKind::Test.text(),
                        );
                    assert(rest[j] == found[j]);
                    assert(found[j].0 < found[found.len() - 1].0);
                } else {
                    assert(now[i] == before[i] && now[k] == before[k]);
                }
            }
        }
    }
}

/// What `sets_of` keeps: every entry is a set of `found`.
pub proof fn lemma_sets_of(found: Seq<Kinded>)
    ensures
        sets_of(found).len() <= found.len(),
        forall|k: int|
            0 <= k < sets_of(found).len() ==> exists|j: int|
                0 <= j < found.len() && #[trigger] found[j] == (
                    #[trigger] sets_of(found)[k],
                    VertexKind::NamedSet.text(),
                ),
    decreases found.len(),
{
    if found.len() > 0 {
        let rest = found.drop_last();
        lemma_sets_of(rest);
    }
}

/// The named vertices among `found`, each with its name, in the order of
/// `found`. A vertex without a name is left out.
pub fn named_among(index: &NameIndex, found: &Vec<Found>) -> (named: Vec<VertInfo>)
    requires
        index.wf(),
    ensures
        named.deep_view() == named_of(index@, found.deep_view()),
{
    let ghost all = found.deep_view();
    let mut named: Vec<VertInfo> = Vec::new();
    let mut i: usize = 0;
    while i < found.len()
        invariant
            0 <= i <= found.len(),
            index.wf(),
            all == found.deep_view(),
            named.deep_view() == named_of(index@, all.take(i as int)),
        decreases found.len() - i,
    {
        proof {
            assert(all.take(i + 1).drop_last() =~= all.take(i as int));
        }
        match index.lookup_name(found[i].0) {
            Some(name) => {
                named.push(VertInfo(name.clone(), found[i].0));
            },
            None => {},
        }
        i = i + 1;
    }
    assert(all.take(i as int) =~= all);
    named
}

/// Parts `frontier` into its tests and its sets: the tests are appended to
/// `tests`, each under its name, as long as `tests` holds fewer than `limit`;
/// the sets are returned. A test without a name gets the empty name.
pub fn sift(index: &NameIndex, frontier: &Vec<Found>, tests: &mut Vec<VertInfo>, limit: usize) -> (sets:
    Vec<u128>)
    requires
        index.wf(),
        old(tests).len() <= limit,
    ensures
        sets@ == sets_of(frontier.deep_view()),
        old(tests).len() <= final(tests).len() <= limit,
        final(tests).len() <= old(tests).len() + tests_of(index@, frontier.deep_view()).len(),
        final(tests).deep_view() == (old(tests).deep_view() + tests_of(
            index@,
            frontier.deep_view(),
        )).take(final(tests).len() as int),
        final(tests).len() == limit || final(tests).len() == old(tests).len() + tests_of(
            index@,
            frontier.deep_view(),
        ).len(),
{
    let ghost all = frontier.deep_view();
    let ghost start = tests.deep_view();
    let mut sets: Vec<u128> = Vec::new();
    let mut i: usize = 0;
    while i < frontier.len()
        invariant
            0 <= i <= frontier.len(),
            index.wf(),
            all == frontier.deep_view(),
            start == old(tests).deep_view(),
            sets@ == sets_of(all.take(i as int)),
            start.len() <= tests.len() <= limit,
            tests.len() <= start.len() + tests_of(index@, all.take(i as int)).len(),
            tests.deep_view() == (start + tests_of(index@, all.take(i as int))).take(
                tests.len() as int,
            ),
            tests.len() == limit || tests.len() == start.len() + tests_of(
                index@,
                all.take(i as int),
            ).len(),
        decreases frontier.len() - i,
    {
        let ghost before = tests.deep_view();
        let ghost seen = tests_of(index@, all.take(i as int));
        proof {
            VertexKind::lemma_texts_differ();
            assert(all.take(i + 1).drop_last() =~= all.take(i as int));
        }
        match VertexKind::parse(frontier[i].1.as_str()) {
            Some(VertexKind::Test) => {
                let ghost entry = (name_or_empty(index@, frontier[i as int].0), frontier[i as int].0);
                if tests.len() < limit {
                    let name = match index.lookup_name(frontier[i].0) {
                        Some(name) => name.clone(),
                        None => String::new(),
                    };
                    tests.push(VertInfo(name, frontier[i].0));
                    assert(tests.deep_view() =~= before.push(entry));
                    assert(tests.deep_view() =~= (start + seen.push(entry)).take(
                        tests.len() as int,
                    ));
                } else {
                    assert((start + seen.push(entry)).take(tests.len() as int) =~= (start
                        + seen).take(tests.len() as int));
                }
            },
            Some(VertexKind::NamedSet) => {
                sets.push(frontier[i].0);
            },
            _ => {
            },
        }
        i = i + 1;
    }
    assert(all.take(i as int) =~= all);
    sets
}

/// The vertices of `passed` as passes, then those of `failed` as failures.
pub fn verdicts(passed: &Vec<Found>, failed: &Vec<Found>) -> (all: Vec<(u128, bool)>)
    ensures
        all@ == judged(passed.deep_view(), true) + judged(failed.deep_view(), false),
{
    let mut all: Vec<(u128, bool)> = Vec::new();
    let mut i: usize = 0;
    while i < passed.len()
        invariant
            0 <= i <= passed.len(),
            all@ == judged(passed.deep_view(), true).take(i as int),
        decreases passed.len() - i,
    {
        all.push((passed[i].0, true));
        i = i + 1;
    }
    let mut j: usize = 0;
    while j < failed.len()
        invariant
            0 <= j <= failed.len(),
            all@ == judged(passed.deep_view(), true) + judged(failed.deep_view(), false).take(
                j as int,
            ),
        decreases failed.len() - j,
    {
        all.push((failed[j].0, false));
        assert(all@ =~= judged(passed.deep_view(), true) + judged(failed.deep_view(), false).take(
            j + 1,
        ));
        j = j + 1;
    }
    all
}

} // verus!
