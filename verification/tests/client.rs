use bug_graph::client::{
    layout_row, row_fits, ws_url, AppTab, Model, Msg, Shade, Slot, SocketStatus,
};
use bug_graph::protocol::{ClientServer, Flavor, Notice, ResultInMatrix, ResultMatrix, ServerClient};

fn cell(test_case: u32, passes: u32, fails: u32) -> ResultInMatrix {
    ResultInMatrix { test_case, passes, fails }
}

fn completions(names: &[&str]) -> Vec<(String, u128)> {
    names.iter().enumerate().map(|(i, name)| (name.to_string(), 100 + i as u128)).collect()
}

#[test]
fn a_cell_is_shaded_by_its_counts() {
    assert_eq!(Shade::of(3, 0), Shade::Success);
    assert_eq!(Shade::of(0, 0), Shade::Success);
    assert_eq!(Shade::of(3, 3), Shade::Warning);
    assert_eq!(Shade::of(3, 1), Shade::Warning);
    assert_eq!(Shade::of(1, 3), Shade::Danger);
    assert_eq!(Shade::of(0, 1), Shade::Danger);
    assert_eq!(Shade::Success.css_class(), "has-background-success");
    assert_eq!(Shade::Warning.css_class(), "has-background-warning");
    assert_eq!(Shade::Danger.css_class(), "has-background-danger");
}

#[test]
fn a_row_is_laid_out_with_blanks_for_missing_columns() {
    let cells = vec![cell(1, 2, 0), cell(3, 1, 1), cell(4, 0, 5)];
    assert!(row_fits(&cells, 6));
    assert_eq!(
        layout_row(&cells, 6),
        vec![
            Slot::Blank,
            Slot::Score { passes: 2, fails: 0, shade: Shade::Success },
            Slot::Blank,
            Slot::Score { passes: 1, fails: 1, shade: Shade::Warning },
            Slot::Score { passes: 0, fails: 5, shade: Shade::Danger },
            Slot::Blank,
        ]
    );
    assert_eq!(layout_row(&vec![], 2), vec![Slot::Blank, Slot::Blank]);
    assert!(layout_row(&vec![], 0).is_empty());
}

#[test]
fn a_row_out_of_order_does_not_fit() {
    assert!(row_fits(&vec![], 0));
    assert!(row_fits(&vec![cell(0, 1, 0)], 1));
    assert!(!row_fits(&vec![cell(1, 1, 0)], 1));
    assert!(!row_fits(&vec![cell(1, 1, 0), cell(1, 1, 0)], 3));
    assert!(!row_fits(&vec![cell(2, 1, 0), cell(1, 1, 0)], 3));
    assert!(!row_fits(&vec![cell(0, 1, 0), cell(2, 1, 0), cell(1, 1, 0)], 3));
}

#[test]
fn tabs_have_titles() {
    assert_eq!(AppTab::Explore.as_str(), "Explore");
    assert_eq!(AppTab::Compare.as_str(), "Compare");
}

#[test]
fn the_connection_leaves_notices() {
    let mut model = Model::new();
    assert!(model.update(Msg::Stat(SocketStatus::Opened)));
    assert!(model.update(Msg::Stat(SocketStatus::Error)));
    assert!(model.connected);
    assert!(model.update(Msg::Stat(SocketStatus::Closed)));
    assert!(!model.connected);
    let notices: Vec<(&str, Flavor)> =
        model.notices.iter().map(|n| (n.msg.as_str(), n.flavor)).collect();
    assert_eq!(
        notices,
        vec![
            ("Opened websocket", Flavor::Success),
            ("Error on websocket", Flavor::Error),
            ("Closed websocket", Flavor::Info),
        ]
    );
    assert!(model.update(Msg::DelNotice(1)));
    assert_eq!(model.notices.len(), 2);
    assert_eq!(model.notices[1].msg, "Closed websocket");
}

#[test]
fn answers_are_taken_only_for_what_is_asked() {
    let mut model = Model::new();
    let id = 0xa1a2a3a4b1b2c1c2d1d2d3d4d5d6d7d8u128;
    assert!(model.update(Msg::Send(ClientServer::ResultMatrix(id))));
    assert_eq!(model.selected, id);
    assert_eq!(
        model.notices[0].msg,
        "Requesting set ResultMatrix(a1a2a3a4-b1b2-c1c2-d1d2-d3d4d5d6d7d8)"
    );
    assert_eq!(model.notices[0].flavor, Flavor::Info);

    let matrix = || ResultMatrix { test_cases: vec![], results: vec![] };
    assert!(!model.update(Msg::Recv(Ok(ServerClient::ResultMatrix(1, matrix())))));
    assert!(model.matrix.is_none());
    assert!(model.update(Msg::Recv(Ok(ServerClient::ResultMatrix(id, matrix())))));
    assert!(model.matrix.is_some());

    model.term = "s".to_string();
    assert!(!model.update(Msg::Recv(Ok(ServerClient::Search("t".to_string(), completions(&["t"]))))));
    assert!(model.completions.is_empty());
    assert!(model.update(Msg::Recv(Ok(ServerClient::Search("s".to_string(), completions(&["s"]))))));
    assert_eq!(model.completions, completions(&["s"]));

    assert!(model.update(Msg::Send(ClientServer::Search("s".to_string()))));
    assert_eq!(model.selected, id);
}

#[test]
fn lists_notices_and_errors_are_always_taken() {
    let mut model = Model::new();
    assert!(model.update(Msg::Recv(Ok(ServerClient::SetList(completions(&["a"]))))));
    assert_eq!(model.sets, Some(completions(&["a"])));
    assert!(model.update(Msg::Recv(Ok(ServerClient::Notify(Notice::warn("careful"))))));
    assert!(model.update(Msg::Recv(Err("expected value".to_string()))));
    assert_eq!(model.notices[0].msg, "careful");
    assert_eq!(model.notices[1].msg, "Could not parse message from server: expected value");
    assert_eq!(model.notices[1].flavor, Flavor::Error);
    assert!(model.update(Msg::ToTab(AppTab::Compare)));
    assert_eq!(model.tab, AppTab::Compare);
}

#[test]
fn the_socket_is_secure_where_the_page_is() {
    assert_eq!(ws_url("https:", "example.org"), "wss://example.org/ws/");
    assert_eq!(ws_url("http:", "localhost:8080"), "ws://localhost:8080/ws/");
    assert_eq!(ws_url("", ""), "ws:///ws/");
}
