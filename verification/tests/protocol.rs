use bug_graph::protocol::{label, ClientServer, Flavor, Notice, ServerClient, VertInfo};

#[test]
fn css_class_names_each_flavor() {
    let notice = |flavor| Notice { msg: String::from("hello"), flavor };
    assert_eq!(notice(Flavor::Error).css_class(), "is-error");
    assert_eq!(notice(Flavor::Warn).css_class(), "is-warning");
    assert_eq!(notice(Flavor::Info).css_class(), "is-info");
    assert_eq!(notice(Flavor::Success).css_class(), "is-success");
}

#[test]
fn each_flavor_has_its_constructor() {
    let notices = [
        (Notice::error("e"), "e", Flavor::Error),
        (Notice::warn("w"), "w", Flavor::Warn),
        (Notice::info("i"), "i", Flavor::Info),
        (Notice::succ("s"), "s", Flavor::Success),
        (Notice::new("n", Flavor::Warn), "n", Flavor::Warn),
    ];
    for (notice, msg, flavor) in notices {
        assert_eq!(notice.msg, msg);
        assert_eq!(notice.flavor, flavor);
    }
}

#[test]
fn an_info_notice_is_a_notification() {
    match ServerClient::info_notice("Hello from WS server!") {
        ServerClient::Notify(notice) => {
            assert_eq!(notice.msg, "Hello from WS server!");
            assert_eq!(notice.flavor, Flavor::Info);
            assert_eq!(notice.css_class(), "is-info");
        }
        _ => panic!("an info notice is a notification"),
    }
}

#[test]
fn a_label_puts_its_content_in_brackets() {
    assert_eq!(label("Search", "env:"), "Search(env:)");
    assert_eq!(label("", ""), "()");
}

#[test]
fn a_client_message_describes_itself() {
    let id = 0xa1a2a3a4b1b2c1c2d1d2d3d4d5d6d7d8u128;
    assert_eq!(
        ClientServer::SetQuery(Some(id)).describe(),
        "SetQuery(a1a2a3a4-b1b2-c1c2-d1d2-d3d4d5d6d7d8)"
    );
    assert_eq!(ClientServer::SetQuery(None).describe(), "SetQuery(All)");
    assert_eq!(ClientServer::Search("suite:".to_string()).describe(), "Search(suite:)");
    assert_eq!(
        ClientServer::ResultMatrix(1).describe(),
        "ResultMatrix(00000000-0000-0000-0000-000000000001)"
    );
}

#[test]
fn a_named_vertex_can_be_duplicated() {
    let info = VertInfo("suite:case".to_string(), 42);
    let copy = info.duplicate();
    assert_eq!((copy.0.as_str(), copy.1), ("suite:case", 42));
}
