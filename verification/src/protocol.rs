//! Values exchanged between the repository and its clients.

use uuid::Uuid;
use vstd::arithmetic::power::pow;
use vstd::prelude::*;
use vstd::string::StringExecFns;

use crate::name_index::Entry;

verus! {

/// How a notice is meant to be received.
#[derive(Clone, Copy, Debug, PartialEq, Eq, Structural)]
pub enum Flavor {
    Error,
    Warn,
    Info,
    Success,
}

/// For the user's information.
#[derive(Clone, Debug)]
pub struct Notice {
    pub msg: String,
    pub flavor: Flavor,
}

/// The style class that marks a notice of the given flavor.
pub open spec fn flavor_class(flavor: Flavor) -> Seq<char> {
    match flavor {
        Flavor::Error => "is-error"@,
        Flavor::Warn => "is-warning"@,
        Flavor::Info => "is-info"@,
        Flavor::Success => "is-success"@,
    }
}

impl Notice {
    /// A notice with the given message and flavor.
    pub fn new(msg: &str, flavor: Flavor) -> (notice: Notice)
        ensures
            notice.msg@ == msg@,
            notice.flavor == flavor,
    {
        Notice { msg: msg.to_owned(), flavor }
    }

    pub fn css_class(&self) -> (class: &'static str)
        ensures
            class@ == flavor_class(self.flavor),
    {
        match self.flavor {
            Flavor::Error => "is-error",
            Flavor::Warn => "is-warning",
            Flavor::Info => "is-info",
            Flavor::Success => "is-success",
        }
    }

    pub fn error(msg: &str) -> (notice: Notice)
        ensures
            notice.msg@ == msg@,
            notice.flavor == Flavor::Error,
    {
        Notice::new(msg, Flavor::Error)
    }

    pub fn warn(msg: &str) -> (notice: Notice)
        ensures
            notice.msg@ == msg@,
            notice.flavor == Flavor::Warn,
    {
        Notice::new(msg, Flavor::Warn)
    }

    pub fn info(msg: &str) -> (notice: Notice)
        ensures
            notice.msg@ == msg@,
            notice.flavor == Flavor::Info,
    {
        Notice::new(msg, Flavor::Info)
    }

    pub fn succ(msg: &str) -> (notice: Notice)
        ensures
            notice.msg@ == msg@,
            notice.flavor == Flavor::Success,
    {
        Notice::new(msg, Flavor::Success)
    }
}

/// A named vertex: its fully-qualified name and its identifier.
#[derive(Clone, Debug)]
pub struct VertInfo(pub String, pub u128);

impl View for VertInfo {
    type V = Entry;

    open spec fn view(&self) -> Entry {
        (self.0@, self.1)
    }
}

impl DeepView for VertInfo {
    type V = Entry;

    open spec fn deep_view(&self) -> Entry {
        self@
    }
}

impl VertInfo {
    /// The same name and vertex once more.
    pub fn duplicate(&self) -> (copy: VertInfo)
        ensures
            copy@ == self@,
    {
        VertInfo(self.0.clone(), self.1)
    }
}

/// One cell of a result matrix: how often the test of column `test_case`
/// passed and failed under the property of the row.
#[derive(Clone, Copy, Debug, PartialEq, Eq, Structural)]
pub struct ResultInMatrix {
    pub test_case: u32,
    pub passes: u32,
    pub fails: u32,
}

impl DeepView for ResultInMatrix {
    type V = ResultInMatrix;

    open spec fn deep_view(&self) -> ResultInMatrix {
        *self
    }
}

/// A row of a result matrix as a plain value: the property, and its cells.
pub type RowView = (Entry, Seq<ResultInMatrix>);

/// A result matrix as a plain value.
pub struct MatrixView {
    pub test_cases: Seq<Entry>,
    pub rows: Seq<RowView>,
}

/// Pass and fail counts of test cases, the columns, under properties, the
/// rows. A row holds cells only for the columns that have results under its
/// property.
#[derive(Clone, Debug)]
pub struct ResultMatrix {
    pub test_cases: Vec<VertInfo>,
    pub results: Vec<(VertInfo, Vec<ResultInMatrix>)>,
}

impl View for ResultMatrix {
    type V = MatrixView;

    open spec fn view(&self) -> MatrixView {
        MatrixView { test_cases: self.test_cases.deep_view(), rows: self.results.deep_view() }
    }
}

/// Server to client message.
#[derive(Clone, Debug)]
pub enum ServerClient {
    Notify(Notice),
    SetList(Vec<(String, u128)>),
    Search(String, Vec<(String, u128)>),
    ResultMatrix(u128, ResultMatrix),
}

impl ServerClient {
    pub fn info_notice(msg: &str) -> (message: ServerClient)
        ensures
            message matches ServerClient::Notify(notice) && notice.msg@ == msg@ && notice.flavor
                == Flavor::Info,
    {
        ServerClient::Notify(Notice::info(msg))
    }
}

/// Client to server message.
#[derive(Clone, Debug)]
pub enum ClientServer {
    SetQuery(Option<u128>),
    Search(String),
    ResultMatrix(u128),
}

/// The sixteen hexadecimal digits, in lower case.
pub open spec fn hex_digits() -> Seq<char> {
    seq!['0', '1', '2', '3', '4', '5', '6', '7', '8', '9', 'a', 'b', 'c', 'd', 'e', 'f']
}

/// The `k`-th of the 32 hexadecimal digits of `id`, counted from the
/// highest: a number below sixteen.
pub open spec fn nibble(id: u128, k: int) -> int {
    ((id as int) / pow(16, (31 - k) as nat)) % 16
}

/// Which of the 32 digits stands at place `i` of the 36 of a UUID's text,
/// where a digit stands there.
pub open spec fn digit_at(i: int) -> int {
    if i < 8 {
        i
    } else if i < 13 {
        i - 1
    } else if i < 18 {
        i - 2
    } else if i < 23 {
        i - 3
    } else {
        i - 4
    }
}

/// The text of an identifier as a UUID: its 32 hexadecimal digits in lower
/// case, from the highest down, in groups of 8, 4, 4, 4 and 12 with a
/// hyphen between two groups.
pub open spec fn uuid_text(id: u128) -> Seq<char> {
    Seq::new(
        36,
        |i: int|
            if i == 8 || i == 13 || i == 18 || i == 23 {
                '-'
            } else {
                hex_digits()[nibble(id, digit_at(i))]
            },
    )
}

/// `Uuid`'s `Display` on the UUID that `Uuid::from_u128` makes of `id`: the
/// hyphenated form in lower case, the highest digit of `id` first.
#[verifier::external_body]
fn hyphenated(id: u128) -> (text: String)
    ensures
        text@ == uuid_text(id),
{
    format!("{}", Uuid::from_u128(id))
}

/// `head`, and `inner` in round brackets behind it.
pub open spec fn labelled(head: Seq<char>, inner: Seq<char>) -> Seq<char> {
    head + seq!['('] + inner + seq![')']
}

/// Writes `inner` in round brackets behind `head`.
pub fn label(head: &str, inner: &str) -> (text: String)
    ensures
        text@ == labelled(head@, inner@),
{
    proof {
        reveal_strlit("(");
        reveal_strlit(")");
    }
    let mut text = head.to_owned();
    text.append("(");
    text.append(inner);
    text.append(")");
    text
}

impl ClientServer {
    /// What `describe` writes.
    pub open spec fn description(&self) -> Seq<char> {
        match self {
            ClientServer::SetQuery(Some(id)) => labelled("SetQuery"@, uuid_text(*id)),
            ClientServer::SetQuery(None) => labelled("SetQuery"@, "All"@),
            ClientServer::Search(term) => labelled("Search"@, term@),
            ClientServer::ResultMatrix(id) => labelled("ResultMatrix"@, uuid_text(*id)),
        }
    }

    /// The message in one line, for a log or a notice.
    pub fn describe(&self) -> (text: String)
        ensures
            text@ == self.description(),
    {
        match self {
            ClientServer::SetQuery(Some(id)) => label("SetQuery", hyphenated(*id).as_str()),
            ClientServer::SetQuery(None) => label("SetQuery", "All"),
            ClientServer::Search(term) => label("Search", term.as_str()),
            ClientServer::ResultMatrix(id) => label("ResultMatrix", hyphenated(*id).as_str()),
        }
    }
}

} // verus!
