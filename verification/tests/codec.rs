use chat_core::frame::FromClient;
use chat_core::frame::FromServer;
use chat_core::frame::decode_client;
use chat_core::frame::decode_server;
use chat_core::frame::encode_client;
use chat_core::frame::encode_server;

#[test]
fn encode_join_exact() {
    let m = FromClient::Join { group_name: String::from("dogs") };
    assert_eq!(encode_client(&m), "{\"Join\":{\"group_name\":\"dogs\"}}\n");
}

#[test]
fn encode_post_exact() {
    let m = FromClient::Post {
        group_name: String::from("dogs"),
        message: String::from("Samoyeds rock!"),
    };
    assert_eq!(
        encode_client(&m),
        "{\"Post\":{\"group_name\":\"dogs\",\"message\":\"Samoyeds rock!\"}}\n"
    );
}

#[test]
fn encode_server_message_exact() {
    let m = FromServer::Message {
        group_name: String::from("dogs"),
        message: String::from("hi"),
    };
    assert_eq!(
        encode_server(&m),
        "{\"Message\":{\"group_name\":\"dogs\",\"message\":\"hi\"}}\n"
    );
}

#[test]
fn encode_error_exact() {
    let m = FromServer::Error(String::from("Group 'room42' does not exist"));
    assert_eq!(
        encode_server(&m),
        "{\"Error\":\"Group 'room42' does not exist\"}\n"
    );
}

#[test]
fn encode_escapes_specials() {
    let m = FromClient::Post {
        group_name: String::from("g"),
        message: String::from("a\"b\\c\nd"),
    };
    assert_eq!(
        encode_client(&m),
        "{\"Post\":{\"group_name\":\"g\",\"message\":\"a\\\"b\\\\c\\nd\"}}\n"
    );
}

#[test]
fn encoded_frame_is_one_line() {
    let m = FromServer::Message {
        group_name: String::from("g"),
        message: String::from("two\nlines \"quoted\" \\slashed\\"),
    };
    let frame = encode_server(&m);
    // exactly one line terminator, and it is the last character
    assert_eq!(frame.chars().filter(|c| *c == '\n').count(), 1);
    assert_eq!(frame.chars().last(), Some('\n'));
}

#[test]
fn decode_join_round_trip() {
    let m = FromClient::Join { group_name: String::from("dogs") };
    let frame = encode_client(&m);
    let line = &frame[..frame.len() - 1];
    match decode_client(line) {
        Some(FromClient::Join { group_name }) => assert_eq!(group_name, "dogs"),
        _ => panic!("expected a Join"),
    }
}

#[test]
fn decode_post_round_trip_with_escapes() {
    let m = FromClient::Post {
        group_name: String::from("g\"x"),
        message: String::from("a\"b\\c\nd"),
    };
    let frame = encode_client(&m);
    let line = &frame[..frame.len() - 1];
    match decode_client(line) {
        Some(FromClient::Post { group_name, message }) => {
            assert_eq!(group_name, "g\"x");
            assert_eq!(message, "a\"b\\c\nd");
        }
        _ => panic!("expected a Post"),
    }
}

#[test]
fn decode_server_round_trip() {
    let m = FromServer::Message {
        group_name: String::from("dogs"),
        message: String::from("hi"),
    };
    let frame = encode_server(&m);
    let line = &frame[..frame.len() - 1];
    match decode_server(line) {
        Some(FromServer::Message { group_name, message }) => {
            assert_eq!(group_name, "dogs");
            assert_eq!(message, "hi");
        }
        _ => panic!("expected a Message"),
    }
}

#[test]
fn decode_server_error_round_trip() {
    let m = FromServer::Error(String::from("no such group"));
    let frame = encode_server(&m);
    let line = &frame[..frame.len() - 1];
    match decode_server(line) {
        Some(FromServer::Error(e)) => assert_eq!(e, "no such group"),
        _ => panic!("expected an Error"),
    }
}

#[test]
fn decode_rejects_malformed() {
    assert!(decode_client("").is_none());
    assert!(decode_client("hello").is_none());
    // truncated: closing braces missing
    assert!(decode_client("{\"Join\":{\"group_name\":\"g\"").is_none());
    assert!(decode_client("{\"Join\":{\"group_name\":\"g\"}").is_none());
    // trailing garbage after a well-formed request
    assert!(decode_client("{\"Join\":{\"group_name\":\"g\"}}x").is_none());
    // unterminated string
    assert!(decode_client("{\"Join\":{\"group_name\":\"g}}").is_none());
    // invalid escape
    assert!(decode_client("{\"Join\":{\"group_name\":\"\\x\"}}").is_none());
    // unquoted field value
    assert!(decode_client("{\"Join\":{\"group_name\":5}}").is_none());
    // a server frame is not a client request
    assert!(decode_client("{\"Error\":\"nope\"}").is_none());
    // and a client request is not a server frame
    assert!(decode_server("{\"Join\":{\"group_name\":\"g\"}}").is_none());
    assert!(decode_server("{\"Error\":\"unterminated").is_none());
}
