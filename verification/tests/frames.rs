use signaling::messages::{
    server_err, server_msg, Message, V2Downgrade, V2Promoted, V2Registered, V2RoomFailed,
    V2Upgrade, WsClientMsg, WsServerMsg,
};

fn read(frame: &str) -> WsClientMsg {
    WsClientMsg::from_text(frame).expect("a well-formed frame")
}

fn refusal(frame: &str) -> String {
    WsClientMsg::from_text(frame).expect_err("a frame that cannot be read")
}

#[test]
fn absent_fields_are_empty() {
    let msg = read("{}");
    assert_eq!(msg.cmd, "");
    assert_eq!(msg.roomid, "");
    assert_eq!(msg.clientid, "");
    assert_eq!(msg.msg, "");
    assert_eq!(msg.ver, None);
    assert_eq!(msg.token, "");
    assert_eq!(msg.epoch, None);
}

#[test]
fn all_fields_are_read() {
    let msg = read(
        r#"{"cmd":"register","roomid":"42","clientid":"7","msg":"m","ver":2,"token":"t","epoch":"3","other":[1]}"#,
    );
    assert_eq!(msg.cmd, "register");
    assert_eq!(msg.roomid, "42");
    assert_eq!(msg.clientid, "7");
    assert_eq!(msg.msg, "m");
    assert_eq!(msg.ver, Some(2));
    assert_eq!(msg.token, "t");
    assert_eq!(msg.epoch, Some("3".to_string()));
}

#[test]
fn escapes_are_resolved() {
    assert_eq!(read(r#"{"msg":"a\"b\\c\ndA"}"#).msg, "a\"b\\c\ndA");
}

#[test]
fn the_last_of_two_equal_names_counts() {
    assert_eq!(read(r#"{"cmd":"a","cmd":"send"}"#).cmd, "send");
}

#[test]
fn a_null_version_is_no_version() {
    assert_eq!(read(r#"{"ver":null}"#).ver, None);
    assert_eq!(read(r#"{"ver":0}"#).ver, Some(0));
    assert_eq!(read(r#"{"ver":255}"#).ver, Some(255));
}

#[test]
fn an_epoch_that_is_no_text_is_no_epoch() {
    for frame in [
        r#"{"epoch":null}"#,
        r#"{"epoch":3}"#,
        r#"{"epoch":["3"]}"#,
        r#"{"epoch":{"a":1}}"#,
        r#"{"epoch":true}"#,
    ] {
        assert_eq!(read(frame).epoch, None);
    }
}

#[test]
fn fields_of_the_wrong_type_are_errors() {
    assert_eq!(
        refusal(r#"{"cmd":3}"#),
        "invalid type: integer `3`, expected a string"
    );
    assert_eq!(
        refusal(r#"{"roomid":null}"#),
        "invalid type: null, expected a string"
    );
    assert_eq!(
        refusal(r#"{"clientid":true}"#),
        "invalid type: boolean `true`, expected a string"
    );
    assert_eq!(
        refusal(r#"{"msg":[]}"#),
        "invalid type: sequence, expected a string"
    );
    assert_eq!(
        refusal(r#"{"token":{}}"#),
        "invalid type: map, expected a string"
    );
    assert_eq!(
        refusal(r#"{"msg":1.5}"#),
        "invalid type: floating point `1.5`, expected a string"
    );
}

#[test]
fn versions_that_are_no_small_number_are_errors() {
    assert_eq!(
        refusal(r#"{"ver":256}"#),
        "invalid value: integer `256`, expected u8"
    );
    assert_eq!(
        refusal(r#"{"ver":-1}"#),
        "invalid value: integer `-1`, expected u8"
    );
    assert_eq!(
        refusal(r#"{"ver":18446744073709551615}"#),
        "invalid value: integer `18446744073709551615`, expected u8"
    );
    assert_eq!(
        refusal(r#"{"ver":2.0}"#),
        "invalid type: floating point `2.0`, expected u8"
    );
    assert_eq!(
        refusal(r#"{"ver":"2"}"#),
        "invalid type: string \"2\", expected u8"
    );
    assert_eq!(
        refusal(r#"{"ver":false}"#),
        "invalid type: boolean `false`, expected u8"
    );
}

#[test]
fn the_first_wrong_field_in_the_order_of_names_is_reported() {
    assert_eq!(
        refusal(r#"{"ver":"x","cmd":1,"clientid":2}"#),
        "invalid type: integer `2`, expected a string"
    );
    assert_eq!(
        refusal(r#"{"ver":"x","token":1}"#),
        "invalid type: integer `1`, expected a string"
    );
}

#[test]
fn a_list_gives_the_fields_in_their_order() {
    let msg = read(r#"["send","r","c","m",2,"t","5"]"#);
    assert_eq!(msg.cmd, "send");
    assert_eq!(msg.roomid, "r");
    assert_eq!(msg.clientid, "c");
    assert_eq!(msg.msg, "m");
    assert_eq!(msg.ver, Some(2));
    assert_eq!(msg.token, "t");
    assert_eq!(msg.epoch, Some("5".to_string()));

    let msg = read(r#"["send"]"#);
    assert_eq!(msg.cmd, "send");
    assert_eq!(msg.msg, "");
    assert_eq!(read("[]").cmd, "");
}

#[test]
fn a_list_that_is_too_long_or_wrong_is_an_error() {
    assert_eq!(
        refusal(r#"["a","b","c","d",1,"f","g","h","i"]"#),
        "invalid length 9, expected fewer elements in array"
    );
    assert_eq!(
        refusal(r#"["a",1]"#),
        "invalid type: integer `1`, expected a string"
    );
    assert_eq!(
        refusal(r#"["a","b","c","d","2"]"#),
        "invalid type: string \"2\", expected u8"
    );
}

#[test]
fn other_values_are_no_frames() {
    assert_eq!(
        refusal("3"),
        "invalid type: integer `3`, expected struct WsClientMsg"
    );
    assert_eq!(
        refusal("null"),
        "invalid type: null, expected struct WsClientMsg"
    );
    assert_eq!(
        refusal(r#""text""#),
        "invalid type: string \"text\", expected struct WsClientMsg"
    );
}

#[test]
fn text_that_is_no_json_is_an_error_with_its_place() {
    assert_eq!(
        refusal(""),
        "EOF while parsing a value at line 1 column 0"
    );
    assert_eq!(
        refusal("{\"cmd\":"),
        "EOF while parsing a value at line 1 column 7"
    );
    assert_eq!(
        refusal("{} x"),
        "trailing characters at line 1 column 4"
    );
}

#[test]
fn values_that_were_parsed_elsewhere_are_read_alike() {
    let value: serde_json::Value = serde_json::from_str(r#"{"cmd":"send","msg":"m"}"#).unwrap();
    let msg = WsClientMsg::from_value(&value).unwrap();
    assert_eq!(msg.cmd, "send");
    assert_eq!(msg.msg, "m");
}

#[test]
fn server_frames_are_exact() {
    assert_eq!(server_msg("hello"), r#"{"msg":"hello","error":""}"#);
    assert_eq!(server_err("bad"), r#"{"msg":"","error":"bad"}"#);
    assert_eq!(
        WsServerMsg {
            msg: "m".to_string(),
            error: "e".to_string(),
        }
        .to_wire(),
        r#"{"msg":"m","error":"e"}"#
    );
    assert_eq!(WsServerMsg::default().to_wire(), r#"{"msg":"","error":""}"#);
    assert_eq!(WsServerMsg::msg("x").msg, "x");
    assert_eq!(WsServerMsg::err("x").error, "x");
}

#[test]
fn server_frames_are_escaped() {
    assert_eq!(
        server_msg("a\"b\\c\n\t\u{1}\u{e9}/"),
        "{\"msg\":\"a\\\"b\\\\c\\n\\t\\u0001\u{e9}/\",\"error\":\"\"}"
    );
}

#[test]
fn every_kind_of_character_is_written_as_json() {
    for (text, written) in [
        ("", ""),
        ("\"", "\\\""),
        ("\\", "\\\\"),
        ("\u{8}", "\\b"),
        ("\t", "\\t"),
        ("\n", "\\n"),
        ("\u{c}", "\\f"),
        ("\r", "\\r"),
        ("\u{0}", "\\u0000"),
        ("\u{b}", "\\u000b"),
        ("\u{1f}", "\\u001f"),
        (" /'\u{7f}\u{80}\u{2028}\u{1f600}", " /'\u{7f}\u{80}\u{2028}\u{1f600}"),
    ] {
        assert_eq!(
            server_msg(text),
            format!("{{\"msg\":\"{written}\",\"error\":\"\"}}")
        );
    }
}

#[test]
fn control_frames_are_exact() {
    assert_eq!(
        V2Registered {
            control: "registered",
            roomid: "1".to_string(),
            epoch: "2".to_string(),
            mode: "sfu",
            is_initiator: None,
        }
        .to_wire(),
        r#"{"control":"registered","roomid":"1","epoch":"2","mode":"sfu"}"#
    );
    assert_eq!(
        V2Registered {
            control: "registered",
            roomid: "1".to_string(),
            epoch: "2".to_string(),
            mode: "p2p",
            is_initiator: Some(false),
        }
        .to_wire(),
        r#"{"control":"registered","roomid":"1","epoch":"2","mode":"p2p","is_initiator":false}"#
    );
    assert_eq!(
        V2Promoted {
            control: "p2p-promote",
            roomid: "1".to_string(),
            epoch: "2".to_string(),
            is_initiator: true,
        }
        .to_wire(),
        r#"{"control":"p2p-promote","roomid":"1","epoch":"2","is_initiator":true}"#
    );
    assert_eq!(
        V2Upgrade {
            control: "sfu-upgrade",
            roomid: "1".to_string(),
            epoch: "2".to_string(),
        }
        .to_wire(),
        r#"{"control":"sfu-upgrade","roomid":"1","epoch":"2"}"#
    );
    assert_eq!(
        V2Downgrade {
            control: "sfu-downgrade",
            roomid: "1".to_string(),
            epoch: "2".to_string(),
            is_initiator: false,
        }
        .to_wire(),
        r#"{"control":"sfu-downgrade","roomid":"1","epoch":"2","is_initiator":false}"#
    );
    assert_eq!(
        V2RoomFailed {
            control: "room-failed",
            roomid: "1".to_string(),
            reason: "gone \"away\"".to_string(),
        }
        .to_wire(),
        r#"{"control":"room-failed","roomid":"1","reason":"gone \"away\""}"#
    );
}

#[test]
fn copies_and_defaults_of_messages() {
    let message = Message {
        roomid: "r".to_string(),
        clientid: "c".to_string(),
        msg: "m".to_string(),
    };
    let copy = message.clone();
    assert_eq!(copy.roomid, "r");
    assert_eq!(copy.clientid, "c");
    assert_eq!(copy.msg, "m");
    let empty = Message::default();
    assert_eq!(empty.roomid, "");
    assert_eq!(empty.clientid, "");
    assert_eq!(empty.msg, "");
    let frame = read(r#"{"cmd":"send","epoch":"1","ver":3}"#).clone();
    assert_eq!(frame.cmd, "send");
    assert_eq!(frame.epoch, Some("1".to_string()));
    assert_eq!(frame.ver, Some(3));
    assert_eq!(WsClientMsg::default().cmd, "");
}
