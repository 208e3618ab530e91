use chat_core::connection::handle_line;
use chat_core::connection::handle_request;
use chat_core::frame::FromClient;
use chat_core::frame::FromServer;
use chat_core::frame::decode_server;
use chat_core::frame::encode_client;
use chat_core::frame::encode_server;
use chat_core::group::GroupTable;

fn expect_message(frame: &FromServer, group: &str, text: &str) {
    match frame {
        FromServer::Message { group_name, message } => {
            assert_eq!(group_name, group);
            assert_eq!(message, text);
        }
        _ => panic!("expected a Message"),
    }
}

#[test]
fn join_sends_nothing_back() {
    let mut table = GroupTable::new();
    let req = FromClient::Join { group_name: String::from("g") };
    let out = handle_request(&mut table, 1, &req);
    assert!(out.is_empty());
    assert!(table.get("g").is_some());
}

#[test]
fn post_to_missing_group_reports_exact_error() {
    let mut table = GroupTable::new();
    let req = FromClient::Post {
        group_name: String::from("room42"),
        message: String::from("x"),
    };
    let out = handle_request(&mut table, 9, &req);
    assert_eq!(out.len(), 1);
    assert_eq!(out[0].0, 9);
    match &out[0].1 {
        FromServer::Error(e) => assert_eq!(e, "Group 'room42' does not exist"),
        _ => panic!("expected an Error"),
    }
    // the failed post must not have created the group
    assert!(table.get("room42").is_none());
}

#[test]
fn post_delivers_to_all_members_exactly_once() {
    let mut table = GroupTable::new();
    table.join("g", 1);
    table.join("g", 2);
    table.join("g", 3);
    let req = FromClient::Post {
        group_name: String::from("g"),
        message: String::from("hello"),
    };
    let out = handle_request(&mut table, 1, &req);
    let targets: Vec<u64> = out.iter().map(|d| d.0).collect();
    assert_eq!(targets, vec![1, 2, 3]);
    for (_, frame) in &out {
        expect_message(frame, "g", "hello");
    }
}

#[test]
fn two_joins_one_group_then_post_reaches_both() {
    let mut table = GroupTable::new();
    handle_request(&mut table, 1, &FromClient::Join { group_name: String::from("g") });
    handle_request(&mut table, 2, &FromClient::Join { group_name: String::from("g") });
    // both joins landed in one group
    assert_eq!(table.get("g").unwrap().members().as_slice(), &[1, 2]);
    let out = handle_request(
        &mut table,
        1,
        &FromClient::Post { group_name: String::from("g"), message: String::from("hi") },
    );
    // client2 receives the delivery; client1, a member since before its
    // own post, receives it as well
    assert_eq!(out.len(), 2);
    assert_eq!(out[0].0, 1);
    assert_eq!(out[1].0, 2);
    expect_message(&out[1].1, "g", "hi");
}

#[test]
fn scenario_over_the_wire() {
    let mut table = GroupTable::new();

    // client1 and client2 each send a Join for "g"; client1 then posts "hi"
    let join = encode_client(&FromClient::Join { group_name: String::from("g") });
    let join_line = &join[..join.len() - 1];
    assert!(handle_line(&mut table, 1, join_line).is_some());
    assert!(handle_line(&mut table, 2, join_line).is_some());

    let post = encode_client(&FromClient::Post {
        group_name: String::from("g"),
        message: String::from("hi"),
    });
    let post_line = &post[..post.len() - 1];
    let out = handle_line(&mut table, 1, post_line).expect("a well-formed post is handled");

    // what client2 sees on its wire decodes to a delivery carrying "hi"
    let (target, frame) = &out[1];
    assert_eq!(*target, 2);
    let wire = encode_server(frame);
    let received = decode_server(&wire[..wire.len() - 1]).expect("one line, one frame");
    expect_message(&received, "g", "hi");
}

#[test]
fn malformed_line_is_fatal_but_isolated() {
    let mut table = GroupTable::new();
    table.join("g", 1);

    // a malformed line from client2 closes only that connection
    assert!(handle_line(&mut table, 2, "{\"Join\":{\"group_name\":oops}}").is_none());

    // the registry is untouched and other connections keep working
    assert_eq!(table.get("g").unwrap().members().as_slice(), &[1]);
    let post = encode_client(&FromClient::Post {
        group_name: String::from("g"),
        message: String::from("still here"),
    });
    let out = handle_line(&mut table, 1, &post[..post.len() - 1]).expect("post still handled");
    assert_eq!(out.len(), 1);
    assert_eq!(out[0].0, 1);
    expect_message(&out[0].1, "g", "still here");
}
