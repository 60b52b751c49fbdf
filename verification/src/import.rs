//! Batches of results as an importer reads them, and the recordings that a
//! batch amounts to.
//!
//! A batch describes the environment that a run of tests was made in, and
//! gives the result of each test. Every field of the environment becomes a
//! property of every result of the batch, and so does every field that a
//! result gives of its test.

use vstd::prelude::*;
use vstd::string::StringExecFns;

use crate::kinds::TestStatus;
use crate::names::same;
use crate::repo::NewResult;

verus! {

/// A field as a plain value: its key, and the text of its value.
pub type Field = (Seq<char>, Seq<char>);

/// One result of a batch.
#[derive(Clone, Debug)]
pub struct BatchResult {
    /// The fully-qualified name of the test.
    pub test_fqn: String,
    /// `pass` where the test passed.
    pub status: String,
    /// What the batch tells of the test: keys, each with the text of its
    /// value.
    pub test: Vec<(String, String)>,
}

/// The results of one run of tests.
#[derive(Clone, Debug)]
pub struct Batch {
    /// The product under test.
    pub product: String,
    /// The revision of the product.
    pub revision: String,
    /// What else the batch tells of the environment: keys, each with the
    /// text of its value.
    pub environment: Vec<(String, String)>,
    pub results: Vec<BatchResult>,
}

/// A recording as a plain value.
pub struct Recording {
    pub test_fqn: Seq<char>,
    pub status: TestStatus,
    pub properties: Seq<Seq<char>>,
}

/// What `msg` asks to record.
pub open spec fn recording_of(msg: NewResult) -> Recording {
    Recording {
        test_fqn: msg.test_fqn@,
        status: msg.status,
        properties: msg.properties.deep_view(),
    }
}

/// What each of `msgs` asks to record.
pub open spec fn recordings_of(msgs: Seq<NewResult>) -> Seq<Recording> {
    msgs.map_values(|msg: NewResult| recording_of(msg))
}

/// `key` and `value` as a property below `root`.
pub open spec fn tag(root: Seq<char>, key: Seq<char>, value: Seq<char>) -> Seq<char> {
    root + ":"@ + key + ":"@ + value
}

/// The property that names the product and its revision.
pub open spec fn product_tag(product: Seq<char>, revision: Seq<char>) -> Seq<char> {
    tag("environment:product"@, product, revision)
}

/// The properties that `fields` amount to below `root`.
pub open spec fn tags(root: Seq<char>, fields: Seq<Field>) -> Seq<Seq<char>> {
    fields.map_values(|field: Field| tag(root, field.0, field.1))
}

/// A field of a test counts as a property unless it holds the log of the
/// test or its duration.
pub open spec fn describes_test(field: Field) -> bool {
    field.0 != "log"@ && field.0 != "duration"@
}

/// The fields of `fields` that count as properties of a test.
pub open spec fn describing(fields: Seq<Field>) -> Seq<Field>
    decreases fields.len(),
{
    if fields.len() == 0 {
        Seq::empty()
    } else if describes_test(fields.last()) {
        describing(fields.drop_last()).push(fields.last())
    } else {
        describing(fields.drop_last())
    }
}

/// The properties that every result of a batch is recorded under: the
/// product with its revision, then the other fields of the environment.
pub open spec fn environment_tags(
    product: Seq<char>,
    revision: Seq<char>,
    environment: Seq<Field>,
) -> Seq<Seq<char>> {
    seq![product_tag(product, revision)] + tags("environment"@, environment)
}

/// The status that a text gives.
pub open spec fn status_of(text: Seq<char>) -> TestStatus {
    if text == "pass"@ {
        TestStatus::Pass
    } else {
        TestStatus::Fail
    }
}

/// The recording of one result of a batch made in the given environment.
pub open spec fn recording(
    environment: Seq<Seq<char>>,
    test_fqn: Seq<char>,
    status: Seq<char>,
    test: Seq<Field>,
) -> Recording {
    Recording {
        test_fqn,
        status: status_of(status),
        properties: environment + tags("test"@, describing(test)),
    }
}

/// The recordings that a batch amounts to, result by result.
pub open spec fn recordings(batch: Batch) -> Seq<Recording> {
    let environment = environment_tags(
        batch.product@,
        batch.revision@,
        batch.environment.deep_view(),
    );
    Seq::new(
        batch.results.len() as nat,
        |i: int|
            recording(
                environment,
                batch.results[i].test_fqn@,
                batch.results[i].status@,
                batch.results[i].test.deep_view(),
            ),
    )
}

/// `key` and `value` as a property below `root`.
pub fn make_tag(root: &str, key: &str, value: &str) -> (made: String)
    ensures
        made@ == tag(root@, key@, value@),
{
    let mut made = root.to_owned();
    made.append(":");
    made.append(key);
    made.append(":");
    made.append(value);
    made
}

/// The properties that every result of a batch is recorded under.
pub fn environment_properties(batch: &Batch) -> (properties: Vec<String>)
    ensures
        properties.deep_view() == environment_tags(
            batch.product@,
            batch.revision@,
            batch.environment.deep_view(),
        ),
{
    let ghost fields = batch.environment.deep_view();
    let ghost product = product_tag(batch.product@, batch.revision@);
    let mut properties: Vec<String> = Vec::new();
    properties.push(
        make_tag("environment:product", batch.product.as_str(), batch.revision.as_str()),
    );
    let mut i: usize = 0;
    while i < batch.environment.len()
        invariant
            0 <= i <= batch.environment.len(),
            fields == batch.environment.deep_view(),
            properties.deep_view() == seq![product] + tags("environment"@, fields.take(i as int)),
        decreases batch.environment.len() - i,
    {
        let ghost before = properties.deep_view();
        let property = make_tag(
            "environment",
            batch.environment[i].0.as_str(),
            batch.environment[i].1.as_str(),
        );
        properties.push(property);
        proof {
            assert(properties.deep_view() =~= before.push(
                tag("environment"@, fields[i as int].0, fields[i as int].1),
            ));
        }
        i = i + 1;
    }
    assert(fields.take(i as int) =~= fields);
    properties
}

/// The recording of `result`, made in the environment that gives the
/// properties `environment`.
pub fn new_result(environment: &Vec<String>, result: &BatchResult) -> (msg: NewResult)
    ensures
        recording_of(msg) == recording(
            environment.deep_view(),
            result.test_fqn@,
            result.status@,
            result.test.deep_view(),
        ),
{
    let ghost fields = result.test.deep_view();
    let ghost shared = environment.deep_view();
    let mut properties: Vec<String> = Vec::new();
    let mut k: usize = 0;
    while k < environment.len()
        invariant
            0 <= k <= environment.len(),
            shared == environment.deep_view(),
            properties.deep_view() == shared.take(k as int),
        decreases environment.len() - k,
    {
        let ghost before = properties.deep_view();
        properties.push(environment[k].clone());
        assert(properties.deep_view() =~= before.push(shared[k as int]));
        k = k + 1;
    }
    let mut i: usize = 0;
    while i < result.test.len()
        invariant
            0 <= i <= result.test.len(),
            fields == result.test.deep_view(),
            properties.deep_view() == shared + tags("test"@, describing(fields.take(i as int))),
        decreases result.test.len() - i,
    {
        let ghost before = properties.deep_view();
        proof {
            assert(fields.take(i + 1).drop_last() =~= fields.take(i as int));
        }
        let key = result.test[i].0.as_str();
        if !same(key, "log") && !same(key, "duration") {
            properties.push(make_tag("test", key, result.test[i].1.as_str()));
            proof {
                assert(properties.deep_view() =~= before.push(
                    tag("test"@, fields[i as int].0, fields[i as int].1),
                ));
            }
        }
        i = i + 1;
    }
    assert(fields.take(i as int) =~= fields);
    NewResult {
        test_fqn: result.test_fqn.clone(),
        status: TestStatus::from_text(result.status.as_str()),
        properties,
    }
}

/// The recordings that `batch` amounts to, result by result.
pub fn commands(batch: &Batch) -> (msgs: Vec<NewResult>)
    ensures
        recordings_of(msgs@) == recordings(*batch),
{
    let environment = environment_properties(batch);
    let mut msgs: Vec<NewResult> = Vec::new();
    let mut i: usize = 0;
    while i < batch.results.len()
        invariant
            0 <= i <= batch.results.len(),
            environment.deep_view() == environment_tags(
                batch.product@,
                batch.revision@,
                batch.environment.deep_view(),
            ),
            msgs.len() == i,
            forall|k: int|
                0 <= k < i ==> recording_of(#[trigger] msgs[k]) == recordings(*batch)[k],
        decreases batch.results.len() - i,
    {
        let msg = new_result(&environment, &batch.results[i]);
        msgs.push(msg);
        i = i + 1;
    }
    msgs
}

} // verus!
