//! The result matrix: what was observed of each test, aggregated by the
//! properties that its executions were tagged with.

use vstd::prelude::*;

use crate::name_index::{distinct_ids, has_id, Entry};
use crate::protocol::{MatrixView, ResultInMatrix, ResultMatrix, RowView, VertInfo};

verus! {

/// One recorded execution of a test: the result vertex, whether the test
/// passed, and the properties that the execution was tagged with.
#[derive(Clone, Debug)]
pub struct Outcome {
    pub result: u128,
    pub passed: bool,
    pub properties: Vec<VertInfo>,
}

/// An outcome as a plain value.
pub struct OutcomeView {
    pub result: u128,
    pub passed: bool,
    pub properties: Seq<Entry>,
}

impl View for Outcome {
    type V = OutcomeView;

    open spec fn view(&self) -> OutcomeView {
        OutcomeView {
            result: self.result,
            passed: self.passed,
            properties: self.properties.deep_view(),
        }
    }
}

impl DeepView for Outcome {
    type V = OutcomeView;

    open spec fn deep_view(&self) -> OutcomeView {
        self@
    }
}

/// The outcomes of one test.
pub type Column = Seq<OutcomeView>;

/// How often `tags` names the property `p`.
pub open spec fn occurrences(tags: Seq<Entry>, p: u128) -> nat
    decreases tags.len(),
{
    if tags.len() == 0 {
        0
    } else if tags.last().1 == p {
        occurrences(tags.drop_last(), p) + 1
    } else {
        occurrences(tags.drop_last(), p)
    }
}

/// How many taggings with `p` the outcomes of `column` with the given
/// verdict hold.
pub open spec fn tally(column: Column, p: u128, passed: bool) -> nat
    decreases column.len(),
{
    if column.len() == 0 {
        0
    } else if column.last().passed == passed {
        tally(column.drop_last(), p, passed) + occurrences(column.last().properties, p)
    } else {
        tally(column.drop_last(), p, passed)
    }
}

/// Some outcome of `column` is tagged with `p`.
pub open spec fn touches(column: Column, p: u128) -> bool {
    tally(column, p, true) + tally(column, p, false) > 0
}

/// The cell of the test at `index`, whose outcomes are `column`, under `p`.
pub open spec fn cell_of(index: int, column: Column, p: u128) -> ResultInMatrix {
    ResultInMatrix {
        test_case: index as u32,
        passes: tally(column, p, true) as u32,
        fails: tally(column, p, false) as u32,
    }
}

/// The cells of the property `p`: one for each test with an outcome tagged
/// with `p`, in the order of the tests.
pub open spec fn cells_of(observed: Seq<Column>, p: u128) -> Seq<ResultInMatrix>
    decreases observed.len(),
{
    if observed.len() == 0 {
        Seq::empty()
    } else if touches(observed.last(), p) {
        cells_of(observed.drop_last(), p).push(cell_of(observed.len() - 1, observed.last(), p))
    } else {
        cells_of(observed.drop_last(), p)
    }
}

/// All taggings of `column`, outcome by outcome.
pub open spec fn column_tags(column: Column) -> Seq<Entry>
    decreases column.len(),
{
    if column.len() == 0 {
        Seq::empty()
    } else {
        column_tags(column.drop_last()) + column.last().properties
    }
}

/// All taggings of `observed`, test by test.
pub open spec fn all_tags(observed: Seq<Column>) -> Seq<Entry>
    decreases observed.len(),
{
    if observed.len() == 0 {
        Seq::empty()
    } else {
        all_tags(observed.drop_last()) + column_tags(observed.last())
    }
}

/// The first tagging with each property, in the order of `tags`.
pub open spec fn first_of_each(tags: Seq<Entry>) -> Seq<Entry>
    decreases tags.len(),
{
    if tags.len() == 0 {
        Seq::empty()
    } else if has_id(first_of_each(tags.drop_last()), tags.last().1) {
        first_of_each(tags.drop_last())
    } else {
        first_of_each(tags.drop_last()).push(tags.last())
    }
}

/// The rows of the matrix: one for each property that tags an outcome, in
/// the order in which the properties first occur.
pub open spec fn rows_of(observed: Seq<Column>) -> Seq<RowView> {
    first_of_each(all_tags(observed)).map_values(|e: Entry| (e, cells_of(observed, e.1)))
}

/// The matrix of the given tests and what was observed of each.
pub open spec fn matrix_of(test_cases: Seq<Entry>, observed: Seq<Column>) -> MatrixView {
    MatrixView { test_cases, rows: rows_of(observed) }
}

/// The columns of `cells` increase strictly.
pub open spec fn columns_increase(cells: Seq<ResultInMatrix>) -> bool {
    forall|i: int, j: int|
        0 <= i < j < cells.len() ==> #[trigger] cells[i].test_case < #[trigger] cells[j].test_case
}

/// Every row of `rows` has its cells in strictly increasing column order,
/// each for one of `width` columns, and none without a result.
pub open spec fn rows_in_order(rows: Seq<RowView>, width: int) -> bool {
    forall|r: int|
        0 <= r < rows.len() ==> {
            &&& columns_increase(#[trigger] rows[r].1)
            &&& forall|k: int|
                0 <= k < rows[r].1.len() ==> {
                    &&& (#[trigger] rows[r].1[k]).test_case < width
                    &&& rows[r].1[k].passes + rows[r].1[k].fails > 0
                }
        }
}

/// No property has two rows.
pub open spec fn rows_distinct(rows: Seq<RowView>) -> bool {
    forall|q: int, r: int| 0 <= q < r < rows.len() ==> (#[trigger] rows[q]).0.1 != (#[trigger] rows[r]).0.1
}

/// What fits the counters of a cell.
pub open spec fn countable(observed: Seq<Column>) -> bool {
    &&& observed.len() <= u32::MAX
    &&& forall|i: int| 0 <= i < observed.len() ==> column_tags(#[trigger] observed[i]).len() <= u32::MAX
}

proof fn lemma_has_id_add(a: Seq<Entry>, b: Seq<Entry>, p: u128)
    ensures
        has_id(a + b, p) <==> has_id(a, p) || has_id(b, p),
{
    let s = a + b;
    if has_id(a, p) {
        let i = choose|i: int| 0 <= i < a.len() && #[trigger] a[i].1 == p;
        assert(s[i].1 == p);
    }
    if has_id(b, p) {
        let i = choose|i: int| 0 <= i < b.len() && #[trigger] b[i].1 == p;
        assert(s[a.len() + i].1 == p);
    }
}

proof fn lemma_occurrences(tags: Seq<Entry>, p: u128)
    ensures
        occurrences(tags, p) <= tags.len(),
        occurrences(tags, p) > 0 <==> has_id(tags, p),
    decreases tags.len(),
{
    if tags.len() > 0 {
        let rest = tags.drop_last();
        lemma_occurrences(rest, p);
        assert(tags =~= rest + seq![tags.last()]);
    }
}

/// The counts of a column are bounded by its taggings, and a property that
/// tags none of its outcomes counts nothing.
proof fn lemma_tally(column: Column, p: u128)
    ensures
        tally(column, p, true) + tally(column, p, false) <= column_tags(column).len(),
        touches(column, p) <==> has_id(column_tags(column), p),
    decreases column.len(),
{
    if column.len() > 0 {
        lemma_tally(column.drop_last(), p);
        lemma_occurrences(column.last().properties, p);
        lemma_has_id_add(column_tags(column.drop_last()), column.last().properties, p);
    }
}

/// The cells of a property stand in strictly increasing column order; a
/// property that tags no outcome has none.
proof fn lemma_cells(observed: Seq<Column>, p: u128)
    requires
        countable(observed),
    ensures
        columns_increase(cells_of(observed, p)),
        forall|k: int|
            0 <= k < cells_of(observed, p).len() ==> {
                &&& (#[trigger] cells_of(observed, p)[k]).test_case < observed.len()
                &&& cells_of(observed, p)[k].passes + cells_of(observed, p)[k].fails > 0
            },
        !has_id(all_tags(observed), p) ==> cells_of(observed, p).len() == 0,
        cells_of(observed, p).len() == 0 ==> !has_id(all_tags(observed), p),
    decreases observed.len(),
{
    if observed.len() > 0 {
        let rest = observed.drop_last();
        let last = observed.last();
        lemma_cells(rest, p);
        lemma_tally(last, p);
        lemma_has_id_add(all_tags(rest), column_tags(last), p);
    }
}

proof fn lemma_first_of_each(tags: Seq<Entry>)
    ensures
        distinct_ids(first_of_each(tags)),
        forall|p: u128| has_id(first_of_each(tags), p) <==> has_id(tags, p),
    decreases tags.len(),
{
    if tags.len() > 0 {
        let rest = tags.drop_last();
        let last = tags.last();
        let before = first_of_each(rest);
        let now = first_of_each(tags);
        lemma_first_of_each(rest);
        assert(tags =~= rest + seq![last]);
        assert forall|p: u128| has_id(now, p) <==> has_id(tags, p) by {
            lemma_has_id_add(rest, seq![last], p);
            if !has_id(before, last.1) {
                assert(now =~= before + seq![last]);
                lemma_has_id_add(before, seq![last], p);
            }
        }
    }
}

/// The rows of a matrix are in order: no property has two rows, and the
/// cells of each row stand in strictly increasing column order.
pub proof fn lemma_rows_in_order(observed: Seq<Column>)
    requires
        countable(observed),
    ensures
        rows_distinct(rows_of(observed)),
        rows_in_order(rows_of(observed), observed.len() as int),
{
    let labels = first_of_each(all_tags(observed));
    let rows = rows_of(observed);
    lemma_first_of_each(all_tags(observed));
    assert forall|r: int| 0 <= r < rows.len() implies {
        &&& columns_increase(#[trigger] rows[r].1)
        &&& forall|k: int|
            0 <= k < rows[r].1.len() ==> {
                &&& (#[trigger] rows[r].1[k]).test_case < observed.len()
                &&& rows[r].1[k].passes + rows[r].1[k].fails > 0
            }
    } by {
        lemma_cells(observed, labels[r].1);
    }
}

/// Without tests there are no rows.
pub proof fn lemma_no_tests(observed: Seq<Column>)
    requires
        observed.len() == 0,
    ensures
        rows_of(observed).len() == 0,
{
}

/// What is observed once the last outcome of the last test is tagged with
/// `tag` as well.
pub open spec fn with_tag(observed: Seq<Column>, tag: Entry) -> Seq<Column>
    recommends
        observed.len() > 0,
        observed.last().len() > 0,
{
    let column = observed.last();
    let outcome = column.last();
    observed.drop_last().push(
        column.drop_last().push(
            OutcomeView {
                result: outcome.result,
                passed: outcome.passed,
                properties: outcome.properties.push(tag),
            },
        ),
    )
}

/// What is observed once the last test has one more outcome, not tagged yet.
pub open spec fn with_outcome(observed: Seq<Column>, result: u128, passed: bool) -> Seq<Column>
    recommends
        observed.len() > 0,
{
    observed.drop_last().push(
        observed.last().push(OutcomeView { result, passed, properties: Seq::empty() }),
    )
}

/// One more tagging changes the counts of its property in the last column
/// only.
proof fn lemma_with_tag(observed: Seq<Column>, tag: Entry, p: u128)
    requires
        observed.len() > 0,
        observed.last().len() > 0,
    ensures
        all_tags(with_tag(observed, tag)) == all_tags(observed).push(tag),
        column_tags(with_tag(observed, tag).last()) == column_tags(observed.last()).push(tag),
        with_tag(observed, tag).len() == observed.len(),
        with_tag(observed, tag).drop_last() == observed.drop_last(),
        forall|s: bool|
            #[trigger] tally(with_tag(observed, tag).last(), p, s) == tally(observed.last(), p, s)
                + if tag.1 == p && observed.last().last().passed == s {
                1nat
            } else {
                0nat
            },
{
    let column = observed.last();
    let outcome = column.last();
    let next = with_tag(observed, tag);
    let tagged = next.last().last();
    assert(next.drop_last() =~= observed.drop_last());
    assert(next.last().drop_last() =~= column.drop_last());
    assert(tagged.properties.drop_last() =~= outcome.properties);
}

proof fn lemma_with_outcome(observed: Seq<Column>, result: u128, passed: bool)
    requires
        observed.len() > 0,
    ensures
        rows_of(with_outcome(observed, result, passed)) == rows_of(observed),
        column_tags(with_outcome(observed, result, passed).last()) == column_tags(observed.last()),
        countable(observed) ==> countable(with_outcome(observed, result, passed)),
{
    let next = with_outcome(observed, result, passed);
    assert(next.drop_last() =~= observed.drop_last());
    assert(next.last().drop_last() =~= observed.last());
}

proof fn lemma_with_column(observed: Seq<Column>)
    ensures
        rows_of(observed.push(Seq::empty())) == rows_of(observed),
        column_tags(Seq::<OutcomeView>::empty()).len() == 0,
{
    let next = observed.push(Seq::<OutcomeView>::empty());
    assert(next.drop_last() =~= observed);
}

/// The place of the row of property `id`.
fn find_row(rows: &Vec<(VertInfo, Vec<ResultInMatrix>)>, id: u128) -> (place: Option<usize>)
    ensures
        match place {
            Some(r) => r < rows.len() && rows[r as int].0.1 == id,
            None => forall|r: int| 0 <= r < rows.len() ==> rows[r].0.1 != id,
        },
{
    let mut r: usize = 0;
    while r < rows.len()
        invariant
            r <= rows.len(),
            forall|q: int| 0 <= q < r ==> rows[q].0.1 != id,
        decreases rows.len() - r,
    {
        if rows[r].0.1 == id {
            return Some(r);
        }
        r = r + 1;
    }
    None
}

/// Counts one more tagging of the last outcome of the test in `column`.
fn add_tag(
    rows: &mut Vec<(VertInfo, Vec<ResultInMatrix>)>,
    Ghost(observed): Ghost<Seq<Column>>,
    column: u32,
    tag: &VertInfo,
    passed: bool,
)
    requires
        old(rows).deep_view() == rows_of(observed),
        countable(observed),
        observed.len() == column + 1,
        observed.last().len() > 0,
        observed.last().last().passed == passed,
        column_tags(observed.last()).len() < u32::MAX,
    ensures
        final(rows).deep_view() == rows_of(with_tag(observed, tag@)),
        countable(with_tag(observed, tag@)),
{
    let ghost next = with_tag(observed, tag@);
    let ghost p = tag.1;
    let ghost labels = first_of_each(all_tags(observed));
    let ghost before = rows.deep_view();
    proof {
        lemma_with_tag(observed, tag@, p);
        lemma_first_of_each(all_tags(observed));
        lemma_cells(observed, p);
        lemma_cells(observed.drop_last(), p);
        lemma_tally(observed.last(), p);
        assert forall|q: u128| q != p implies cells_of(next, q) == cells_of(observed, q) by {
            lemma_with_tag(observed, tag@, q);
        }
        assert(first_of_each(all_tags(next)) == if has_id(labels, p) {
            labels
        } else {
            labels.push(tag@)
        }) by {
            assert(all_tags(next).drop_last() =~= all_tags(observed));
        }
        assert(before.len() == labels.len());
        assert forall|r: int| 0 <= r < before.len() implies (#[trigger] before[r]).0 == labels[r]
            && before[r].1 == cells_of(observed, labels[r].1) by {}
    }
    let one = if passed {
        ResultInMatrix { test_case: column, passes: 1, fails: 0 }
    } else {
        ResultInMatrix { test_case: column, passes: 0, fails: 1 }
    };
    match find_row(rows, tag.1) {
        Some(r) => {
            proof {
                assert(before[r as int].0.1 == p);
            }
            let n = rows[r].1.len();
            proof {
                if n > 0 {
                    assert(rows[r as int].1.deep_view()[n - 1] == rows[r as int].1[n - 1]);
                }
            }
            if n > 0 && rows[r].1[n - 1].test_case == column {
                let cell = rows[r].1[n - 1];
                assert(touches(observed.last(), p));
                let bumped = if passed {
                    ResultInMatrix {
                        test_case: cell.test_case,
                        passes: cell.passes + 1,
                        fails: cell.fails,
                    }
                } else {
                    ResultInMatrix {
                        test_case: cell.test_case,
                        passes: cell.passes,
                        fails: cell.fails + 1,
                    }
                };
                rows[r].1.set(n - 1, bumped);
                proof {
                    assert(cells_of(next, p) =~= cells_of(observed, p).update(n - 1, bumped));
                }
            } else {
                rows[r].1.push(one);
            }
            proof {
                let after = rows.deep_view();
                let goal = rows_of(next);
                assert forall|q: int| 0 <= q < after.len() implies after[q] == goal[q] by {
                    if q != r {
                        assert(after[q] == before[q]);
                    }
                }
            }
        },
        None => {
            proof {
                assert(!has_id(labels, p)) by {
                    if has_id(labels, p) {
                        let r = choose|r: int| 0 <= r < labels.len() && #[trigger] labels[r].1 == p;
                        assert(before[r].0.1 == p);
                    }
                }
            }
            let mut cells = Vec::new();
            cells.push(one);
            rows.push((tag.duplicate(), cells));
            proof {
                let after = rows.deep_view();
                let goal = rows_of(next);
                assert forall|q: int| 0 <= q < after.len() implies after[q] == goal[q] by {
                    if q < before.len() {
                        assert(after[q] == before[q]);
                    }
                }
            }
        },
    }
}

/// Counts the taggings of one more outcome of the test in `column`.
fn add_outcome(
    rows: &mut Vec<(VertInfo, Vec<ResultInMatrix>)>,
    Ghost(observed): Ghost<Seq<Column>>,
    column: u32,
    outcome: &Outcome,
)
    requires
        old(rows).deep_view() == rows_of(observed),
        countable(observed),
        observed.len() == column + 1,
        column_tags(observed.last()).len() + outcome.properties.len() <= u32::MAX,
    ensures
        final(rows).deep_view() == rows_of(observed.drop_last().push(observed.last().push(outcome@))),
        countable(observed.drop_last().push(observed.last().push(outcome@))),
        column_tags(observed.last().push(outcome@)).len() == column_tags(observed.last()).len()
            + outcome.properties.len(),
{
    let ghost mut seen = with_outcome(observed, outcome.result, outcome.passed);
    proof {
        lemma_with_outcome(observed, outcome.result, outcome.passed);
        assert(outcome@.properties.take(0) =~= Seq::<Entry>::empty());
    }
    let mut k: usize = 0;
    while k < outcome.properties.len()
        invariant
            0 <= k <= outcome.properties.len(),
            rows.deep_view() == rows_of(seen),
            countable(seen),
            seen.len() == column + 1 == observed.len(),
            seen.drop_last() == observed.drop_last(),
            seen.last().len() == observed.last().len() + 1,
            seen.last().drop_last() == observed.last(),
            seen.last().last() == (OutcomeView {
                result: outcome.result,
                passed: outcome.passed,
                properties: outcome@.properties.take(k as int),
            }),
            column_tags(seen.last()).len() == column_tags(observed.last()).len() + k,
            column_tags(observed.last()).len() + outcome.properties.len() <= u32::MAX,
        decreases outcome.properties.len() - k,
    {
        let ghost tag = outcome.properties[k as int]@;
        add_tag(rows, Ghost(seen), column, &outcome.properties[k], outcome.passed);
        proof {
            lemma_with_tag(seen, tag, tag.1);
            let next = with_tag(seen, tag);
            assert(outcome@.properties.take(k as int).push(tag) =~= outcome@.properties.take(
                k + 1,
            ));
            seen = next;
        }
        k = k + 1;
    }
    proof {
        assert(outcome@.properties.take(k as int) =~= outcome@.properties);
        assert(seen.last() =~= observed.last().push(outcome@));
        assert(seen =~= observed.drop_last().push(observed.last().push(outcome@)));
    }
}

/// Counts the outcomes of the test in `column`, which comes next.
fn add_column(
    rows: &mut Vec<(VertInfo, Vec<ResultInMatrix>)>,
    Ghost(observed): Ghost<Seq<Column>>,
    column: u32,
    outcomes: &Vec<Outcome>,
)
    requires
        old(rows).deep_view() == rows_of(observed),
        countable(observed),
        observed.len() == column,
        column < u32::MAX,
        column_tags(outcomes.deep_view()).len() <= u32::MAX,
    ensures
        final(rows).deep_view() == rows_of(observed.push(outcomes.deep_view())),
        countable(observed.push(outcomes.deep_view())),
{
    let ghost all = outcomes.deep_view();
    let ghost mut seen = observed.push(Seq::<OutcomeView>::empty());
    proof {
        lemma_with_column(observed);
    }
    let mut j: usize = 0;
    while j < outcomes.len()
        invariant
            0 <= j <= outcomes.len(),
            all == outcomes.deep_view(),
            rows.deep_view() == rows_of(seen),
            countable(seen),
            seen.len() == column + 1,
            seen.drop_last() == observed,
            seen.last() == all.take(j as int),
            column_tags(all).len() <= u32::MAX,
        decreases outcomes.len() - j,
    {
        proof {
            lemma_tags_grow(all, j as int);
        }
        add_outcome(rows, Ghost(seen), column, &outcomes[j]);
        proof {
            let next = seen.drop_last().push(seen.last().push(outcomes[j as int]@));
            seen = next;
        }
        j = j + 1;
    }
    proof {
        assert(all.take(j as int) =~= all);
        assert(seen =~= observed.push(all));
    }
}

/// A column of outcomes with at most `each` taggings each has at most
/// `each` taggings for every outcome.
pub proof fn lemma_tags_bounded(column: Column, each: nat)
    requires
        forall|j: int| 0 <= j < column.len() ==> (#[trigger] column[j]).properties.len() <= each,
    ensures
        column_tags(column).len() <= column.len() * each,
    decreases column.len(),
{
    if column.len() > 0 {
        let rest = column.drop_last();
        lemma_tags_bounded(rest, each);
        assert(rest.len() * each + each == column.len() * each) by (nonlinear_arith)
            requires
                rest.len() + 1 == column.len(),
        ;
    }
}

/// The taggings of the first outcomes of a column are among those of the
/// column.
proof fn lemma_tags_grow(column: Column, j: int)
    requires
        0 <= j < column.len(),
    ensures
        column_tags(column.take(j)).len() + column[j].properties.len() == column_tags(
            column.take(j + 1),
        ).len(),
        column_tags(column.take(j + 1)).len() <= column_tags(column).len(),
    decreases column.len() - j,
{
    assert(column.take(j + 1).drop_last() =~= column.take(j));
    if j + 1 < column.len() {
        lemma_tags_grow(column, j + 1);
    }
}

/// Aggregates what was observed of each test into the matrix of the tests.
///
/// `observed` holds the outcomes of the tests in the order of `test_cases`.
pub fn aggregate(test_cases: Vec<VertInfo>, observed: &Vec<Vec<Outcome>>) -> (matrix: ResultMatrix)
    requires
        countable(observed.deep_view()),
    ensures
        matrix@ == matrix_of(test_cases.deep_view(), observed.deep_view()),
        rows_distinct(matrix@.rows),
        rows_in_order(matrix@.rows, observed.len() as int),
{
    let ghost all = observed.deep_view();
    let mut rows: Vec<(VertInfo, Vec<ResultInMatrix>)> = Vec::new();
    let mut i: usize = 0;
    while i < observed.len()
        invariant
            0 <= i <= observed.len(),
            all == observed.deep_view(),
            countable(all),
            countable(all.take(i as int)),
            rows.deep_view() == rows_of(all.take(i as int)),
        decreases observed.len() - i,
    {
        proof {
            assert(all.take(i + 1) =~= all.take(i as int).push(all[i as int]));
        }
        add_column(&mut rows, Ghost(all.take(i as int)), i as u32, &observed[i]);
        i = i + 1;
    }
    proof {
        assert(all.take(i as int) =~= all);
        lemma_rows_in_order(all);
    }
    ResultMatrix { test_cases, results: rows }
}

} // verus!
