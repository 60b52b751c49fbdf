//! What a client of the repository decides: how a row of a result matrix
//! is laid out, where the server is reached, and what each message does to
//! the state of the client.

use vstd::prelude::*;
use vstd::string::StringExecFns;

use crate::matrix::columns_increase;
use crate::names::same;
use crate::protocol::{ClientServer, Notice, ResultInMatrix, ResultMatrix, ServerClient};

verus! {

/// How a cell is shaded.
#[derive(Clone, Copy, Debug, PartialEq, Eq, Structural)]
pub enum Shade {
    /// No failures.
    Success,
    /// Failures, but no more than passes.
    Warning,
    /// More failures than passes.
    Danger,
}

/// What stands in one column of a row.
#[derive(Clone, Copy, Debug, PartialEq, Eq, Structural)]
pub enum Slot {
    /// The row has no cell for the column.
    Blank,
    /// The counts of the cell, and its shade.
    Score { passes: u32, fails: u32, shade: Shade },
}

/// The shade of a cell with the given counts.
pub open spec fn shade_of(passes: u32, fails: u32) -> Shade {
    if fails == 0 {
        Shade::Success
    } else if passes >= fails {
        Shade::Warning
    } else {
        Shade::Danger
    }
}

/// The style class of a shade.
pub open spec fn shade_class(shade: Shade) -> Seq<char> {
    match shade {
        Shade::Success => "has-background-success"@,
        Shade::Warning => "has-background-warning"@,
        Shade::Danger => "has-background-danger"@,
    }
}

/// What stands in column `column` of a row with the given cells.
pub open spec fn slot_of(cells: Seq<ResultInMatrix>, column: int) -> Slot {
    if exists|k: int| 0 <= k < cells.len() && (#[trigger] cells[k]).test_case == column {
        let k = choose|k: int| 0 <= k < cells.len() && (#[trigger] cells[k]).test_case == column;
        Slot::Score {
            passes: cells[k].passes,
            fails: cells[k].fails,
            shade: shade_of(cells[k].passes, cells[k].fails),
        }
    } else {
        Slot::Blank
    }
}

/// The cells stand in strictly increasing column order, each for one of
/// `width` columns.
pub open spec fn fits(cells: Seq<ResultInMatrix>, width: int) -> bool {
    &&& columns_increase(cells)
    &&& forall|k: int| 0 <= k < cells.len() ==> (#[trigger] cells[k]).test_case < width
}

impl Shade {
    pub fn of(passes: u32, fails: u32) -> (shade: Shade)
        ensures
            shade == shade_of(passes, fails),
    {
        if fails == 0 {
            Shade::Success
        } else if passes >= fails {
            Shade::Warning
        } else {
            Shade::Danger
        }
    }

    pub fn css_class(self) -> (class: &'static str)
        ensures
            class@ == shade_class(self),
    {
        match self {
            Shade::Success => "has-background-success",
            Shade::Warning => "has-background-warning",
            Shade::Danger => "has-background-danger",
        }
    }
}

/// Whether the cells of a row stand in strictly increasing column order,
/// each for one of `width` columns.
pub fn row_fits(cells: &Vec<ResultInMatrix>, width: u32) -> (r: bool)
    ensures
        r == fits(cells@, width as int),
{
    let mut k: usize = 0;
    while k < cells.len()
        invariant
            0 <= k <= cells.len(),
            fits(cells@.take(k as int), width as int),
        decreases cells.len() - k,
    {
        if cells[k].test_case >= width || (k > 0 && cells[k - 1].test_case >= cells[k].test_case) {
            return false;
        }
        proof {
            let now = cells@.take(k + 1);
            let before = cells@.take(k as int);
            assert forall|i: int, j: int| 0 <= i < j < now.len() implies (#[trigger] now[i]).test_case < (
            #[trigger] now[j]).test_case by {
                if j == k && i < k - 1 {
                    assert(before[i].test_case < before[k - 1].test_case);
                }
            }
        }
        k = k + 1;
    }
    assert(cells@.take(k as int) =~= cells@);
    true
}

/// Lays out a row over `width` columns: the score of its cell where the
/// row has one for the column, a blank where it has none.
pub fn layout_row(cells: &Vec<ResultInMatrix>, width: u32) -> (slots: Vec<Slot>)
    requires
        fits(cells@, width as int),
    ensures
        slots.len() == width,
        forall|c: int| 0 <= c < width ==> #[trigger] slots[c] == slot_of(cells@, c),
{
    let mut slots: Vec<Slot> = Vec::new();
    let mut next: usize = 0;
    let mut column: u32 = 0;
    while column < width
        invariant
            0 <= column <= width,
            0 <= next <= cells.len(),
            fits(cells@, width as int),
            slots.len() == column,
            forall|k: int| 0 <= k < next ==> (#[trigger] cells[k]).test_case < column,
            forall|k: int| next <= k < cells.len() ==> (#[trigger] cells[k]).test_case >= column,
            forall|c: int| 0 <= c < column ==> #[trigger] slots[c] == slot_of(cells@, c),
        decreases width - column,
    {
        if next < cells.len() && cells[next].test_case == column {
            let cell = cells[next];
            slots.push(
                Slot::Score {
                    passes: cell.passes,
                    fails: cell.fails,
                    shade: Shade::of(cell.passes, cell.fails),
                },
            );
            next = next + 1;
        } else {
            slots.push(Slot::Blank);
        }
        column = column + 1;
    }
    slots
}

/// The address of the web socket of the server at `host`: secure where the
/// client was loaded over `https:`.
pub open spec fn socket_address(protocol: Seq<char>, host: Seq<char>) -> Seq<char> {
    (if protocol == "https:"@ {
        "wss:"@
    } else {
        "ws:"@
    }) + "//"@ + host + "/ws/"@
}

/// The address of the web socket of the server at `host`.
pub fn ws_url(protocol: &str, host: &str) -> (url: String)
    ensures
        url@ == socket_address(protocol@, host@),
{
    let proto = if same("https:", protocol) {
        "wss:"
    } else {
        "ws:"
    };
    let mut url = proto.to_owned();
    url.append("//");
    url.append(host);
    url.append("/ws/");
    url
}

/// The parts of the client.
#[derive(Clone, Copy, Debug, PartialEq, Eq, Structural)]
pub enum AppTab {
    Explore,
    Compare,
}

impl AppTab {
    /// The title of the tab.
    pub open spec fn title(self) -> Seq<char> {
        match self {
            AppTab::Explore => "Explore"@,
            AppTab::Compare => "Compare"@,
        }
    }

    pub fn as_str(self) -> (title: &'static str)
        ensures
            title@ == self.title(),
    {
        match self {
            AppTab::Explore => "Explore",
            AppTab::Compare => "Compare",
        }
    }
}

/// What became of the connection to the server.
#[derive(Clone, Copy, Debug, PartialEq, Eq, Structural)]
pub enum SocketStatus {
    Opened,
    Closed,
    Error,
}

/// What happens to the client.
#[derive(Debug)]
pub enum Msg {
    /// A message of the server came in, or something that is none, with
    /// the reason.
    Recv(Result<ServerClient, String>),
    /// The connection changed.
    Stat(SocketStatus),
    /// The user asks for something.
    Send(ClientServer),
    /// The user dismisses the notice at a place.
    DelNotice(usize),
    /// The user turns to a tab.
    ToTab(AppTab),
}

/// What the client shows and knows.
#[derive(Clone, Debug)]
pub struct Model {
    /// Whether the connection to the server is there.
    pub connected: bool,
    pub notices: Vec<Notice>,
    /// The list of vertices that was asked for last.
    pub sets: Option<Vec<(String, u128)>>,
    pub tab: AppTab,
    /// The term of the comparison.
    pub term: String,
    /// What the server found for the term.
    pub completions: Vec<(String, u128)>,
    /// The matrix of the vertex that was chosen.
    pub matrix: Option<ResultMatrix>,
    /// The vertex whose matrix was asked for last.
    pub selected: u128,
}

/// The notice that a change of the connection leaves.
pub open spec fn status_notice(status: SocketStatus) -> (Seq<char>, crate::protocol::Flavor) {
    match status {
        SocketStatus::Opened => ("Opened websocket"@, crate::protocol::Flavor::Success),
        SocketStatus::Closed => ("Closed websocket"@, crate::protocol::Flavor::Info),
        SocketStatus::Error => ("Error on websocket"@, crate::protocol::Flavor::Error),
    }
}

impl Model {
    /// A client that has not heard of the server yet.
    pub fn new() -> (model: Model)
        ensures
            model.connected,
            model.notices.len() == 0,
            model.sets.is_none(),
            model.tab == AppTab::Explore,
            model.term@.len() == 0,
            model.completions.len() == 0,
            model.matrix.is_none(),
            model.selected == 0,
    {
        Model {
            connected: true,
            notices: Vec::new(),
            sets: None,
            tab: AppTab::Explore,
            term: String::new(),
            completions: Vec::new(),
            matrix: None,
            selected: 0,
        }
    }

    /// Takes a message, and tells whether the client has to be drawn again:
    /// always, but for an answer to a question that is asked no longer.
    ///
    /// A notice can be dismissed only at a place that has one, and a
    /// message can be sent only while the connection is there.
    pub fn update(&mut self, msg: Msg) -> (render: bool)
        requires
            msg matches Msg::DelNotice(place) ==> place < old(self).notices.len(),
            msg is Send ==> old(self).connected,
        ensures
            match msg {
                Msg::Stat(status) => {
                    &&& render
                    &&& final(self).connected == (old(self).connected && status
                        != SocketStatus::Closed)
                    &&& final(self).notices.len() == old(self).notices.len() + 1
                    &&& final(self).notices@.drop_last() == old(self).notices@
                    &&& (final(self).notices@.last().msg@, final(self).notices@.last().flavor)
                        == status_notice(status)
                    &&& final(self).kept_but_notices(old(self))
                },
                Msg::Recv(Ok(ServerClient::Notify(notice))) => {
                    &&& render
                    &&& final(self).notices@ == old(self).notices@.push(notice)
                    &&& final(self).connected == old(self).connected
                    &&& final(self).kept_but_notices(old(self))
                },
                Msg::Recv(Ok(ServerClient::SetList(list))) => {
                    &&& render
                    &&& final(self).sets == Some(list)
                    &&& final(self).connected == old(self).connected
                    &&& final(self).notices == old(self).notices
                    &&& final(self).kept_comparison(old(self))
                    &&& final(self).tab == old(self).tab
                },
                Msg::Recv(Ok(ServerClient::Search(term, found))) => {
                    &&& render == (term@ == old(self).term@)
                    &&& final(self).completions == if render {
                        found
                    } else {
                        old(self).completions
                    }
                    &&& final(self).kept_but_completions(old(self))
                },
                Msg::Recv(Ok(ServerClient::ResultMatrix(root, matrix))) => {
                    &&& render == (root == old(self).selected)
                    &&& final(self).matrix == if render {
                        Some(matrix)
                    } else {
                        old(self).matrix
                    }
                    &&& final(self).kept_but_matrix(old(self))
                },
                Msg::Recv(Err(reason)) => {
                    &&& render
                    &&& final(self).notices.len() == old(self).notices.len() + 1
                    &&& final(self).notices@.drop_last() == old(self).notices@
                    &&& final(self).notices@.last().flavor == crate::protocol::Flavor::Error
                    &&& final(self).notices@.last().msg@
                        == "Could not parse message from server: "@ + reason@
                    &&& final(self).connected == old(self).connected
                    &&& final(self).kept_but_notices(old(self))
                },
                Msg::Send(request) => {
                    &&& render
                    &&& final(self).selected == match request {
                        ClientServer::ResultMatrix(root) => root,
                        _ => old(self).selected,
                    }
                    &&& final(self).notices.len() == old(self).notices.len() + 1
                    &&& final(self).notices@.drop_last() == old(self).notices@
                    &&& final(self).notices@.last().flavor == crate::protocol::Flavor::Info
                    &&& final(self).notices@.last().msg@ == "Requesting set "@
                        + request.description()
                    &&& final(self).connected
                    &&& final(self).sets == old(self).sets
                    &&& final(self).tab == old(self).tab
                    &&& final(self).term == old(self).term
                    &&& final(self).completions == old(self).completions
                    &&& final(self).matrix == old(self).matrix
                },
                Msg::DelNotice(place) => {
                    &&& render
                    &&& final(self).notices@ == old(self).notices@.remove(place as int)
                    &&& final(self).connected == old(self).connected
                    &&& final(self).kept_but_notices(old(self))
                },
                Msg::ToTab(tab) => {
                    &&& render
                    &&& final(self).tab == tab
                    &&& final(self).connected == old(self).connected
                    &&& final(self).notices == old(self).notices
                    &&& final(self).sets == old(self).sets
                    &&& final(self).kept_comparison(old(self))
                },
            },
    {
        match msg {
            Msg::Stat(status) => {
                match status {
                    SocketStatus::Opened => {
                        self.notices.push(Notice::succ("Opened websocket"));
                    },
                    SocketStatus::Closed => {
                        self.notices.push(Notice::info("Closed websocket"));
                        self.connected = false;
                    },
                    SocketStatus::Error => {
                        self.notices.push(Notice::error("Error on websocket"));
                    },
                }
                true
            },
            Msg::Recv(Ok(ServerClient::Notify(notice))) => {
                self.notices.push(notice);
                true
            },
            Msg::Recv(Ok(ServerClient::SetList(list))) => {
                self.sets = Some(list);
                true
            },
            Msg::Recv(Ok(ServerClient::Search(term, found))) => {
                if same(term.as_str(), self.term.as_str()) {
                    self.completions = found;
                    true
                } else {
                    false
                }
            },
            Msg::Recv(Ok(ServerClient::ResultMatrix(root, matrix))) => {
                if root == self.selected {
                    self.matrix = Some(matrix);
                    true
                } else {
                    false
                }
            },
            Msg::Recv(Err(reason)) => {
                let mut text = String::new();
                text.append("Could not parse message from server: ");
                text.append(reason.as_str());
                self.notices.push(Notice::error(text.as_str()));
                true
            },
            Msg::Send(request) => {
                if let ClientServer::ResultMatrix(root) = &request {
                    self.selected = *root;
                }
                let mut text = String::new();
                text.append("Requesting set ");
                text.append(request.describe().as_str());
                self.notices.push(Notice::info(text.as_str()));
                true
            },
            Msg::DelNotice(place) => {
                self.notices.remove(place);
                true
            },
            Msg::ToTab(tab) => {
                self.tab = tab;
                true
            },
        }
    }

    /// The comparison is as it was in `before`.
    pub open spec fn kept_comparison(&self, before: &Model) -> bool {
        &&& self.term == before.term
        &&& self.completions == before.completions
        &&& self.matrix == before.matrix
        &&& self.selected == before.selected
    }

    /// All but the notices and the connection is as it was in `before`.
    pub open spec fn kept_but_notices(&self, before: &Model) -> bool {
        &&& self.sets == before.sets
        &&& self.tab == before.tab
        &&& self.kept_comparison(before)
    }

    /// All but the completions is as it was in `before`.
    pub open spec fn kept_but_completions(&self, before: &Model) -> bool {
        &&& self.connected == before.connected
        &&& self.notices == before.notices
        &&& self.sets == before.sets
        &&& self.tab == before.tab
        &&& self.term == before.term
        &&& self.matrix == before.matrix
        &&& self.selected == before.selected
    }

    /// All but the matrix is as it was in `before`.
    pub open spec fn kept_but_matrix(&self, before: &Model) -> bool {
        &&& self.connected == before.connected
        &&& self.notices == before.notices
        &&& self.sets == before.sets
        &&& self.tab == before.tab
        &&& self.term == before.term
        &&& self.completions == before.completions
        &&& self.selected == before.selected
    }
}

} // verus!
