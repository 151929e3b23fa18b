use signaling::collider::{
    AuthorityCommand, AuthorityOperation, AuthorityResponse, AuthorityResult, BrowserInput,
    BrowserOutput, Collider, StatusSnapshot,
};
use signaling::messages::{server_err, server_msg, WsClientMsg};
use signaling::sfu;
use signaling::time::{Duration, Instant};
use signaling::v2::{RoomMode, EVENT_DEDUP_CAPACITY};

fn at(secs: u64) -> Instant {
    Instant::from_nanos(1_000_000_000) + Duration::from_secs(secs)
}

fn collider() -> Collider {
    Collider::new(Duration::from_secs(10))
}

fn text(c: &mut Collider, connection_id: u64, frame: &str) {
    c.handle_read(BrowserInput::Text {
        connection_id,
        text: frame.to_string(),
        now: at(0),
    })
    .unwrap();
}

fn connect(c: &mut Collider, connection_id: u64) {
    c.handle_read(BrowserInput::Connected { connection_id })
        .unwrap();
}

fn disconnect(c: &mut Collider, connection_id: u64, now: Instant) {
    c.handle_read(BrowserInput::Disconnected { connection_id, now })
        .unwrap();
}

fn outputs(c: &mut Collider) -> Vec<BrowserOutput> {
    let mut all = Vec::new();
    while let Some(output) = c.poll_write() {
        all.push(output);
    }
    all
}

fn ask(c: &mut Collider, request_id: u64, operation: AuthorityOperation) -> AuthorityResult {
    c.handle_write(AuthorityCommand {
        request_id,
        operation,
    })
    .unwrap();
    let response = c.poll_event().expect("an answer");
    assert_eq!(response.request_id, request_id);
    assert_eq!(c.poll_event(), None);
    response.result
}

fn frame(connection_id: u64, text: String) -> BrowserOutput {
    BrowserOutput::Text {
        connection_id,
        text,
    }
}

fn failure(connection_id: u64, error: &str) -> Vec<BrowserOutput> {
    vec![
        frame(connection_id, server_err(error)),
        BrowserOutput::Close { connection_id },
    ]
}

fn status(c: &mut Collider) -> StatusSnapshot {
    match ask(c, 999, AuthorityOperation::Status) {
        AuthorityResult::Status(status) => status,
        result => panic!("expected a status: {result:?}"),
    }
}

/// Two V1 clients with connections.
fn v1_pair() -> Collider {
    let mut c = collider();
    for (connection_id, clientid) in [(10, "1"), (20, "2")] {
        connect(&mut c, connection_id);
        text(
            &mut c,
            connection_id,
            &format!(r#"{{"cmd":"register","roomid":"room","clientid":"{clientid}"}}"#),
        );
    }
    assert_eq!(outputs(&mut c), vec![]);
    c
}

fn admit_v2(client_id: u64) -> AuthorityOperation {
    AuthorityOperation::AdmitV2 {
        room_id: 42,
        client_id,
        admission_token: format!("token-{client_id}"),
        now: at(0),
    }
}

fn remove_v2(client_id: u64) -> AuthorityOperation {
    AuthorityOperation::RemoveV2 {
        room_id: 42,
        client_id,
        admission_token: format!("token-{client_id}"),
    }
}

fn register_v2(c: &mut Collider, connection_id: u64, client_id: u64) {
    connect(c, connection_id);
    text(
        c,
        connection_id,
        &format!(
            r#"{{"cmd":"register","roomid":"42","clientid":"{client_id}","ver":2,"token":"token-{client_id}"}}"#
        ),
    );
}

/// Two V2 members with connections 101 and 102.
fn v2_pair() -> Collider {
    let mut c = collider();
    for client_id in [101, 102] {
        ask(&mut c, client_id, admit_v2(client_id));
        register_v2(&mut c, client_id, client_id);
    }
    outputs(&mut c);
    c
}

fn ready_worker(c: &mut Collider) {
    c.handle_sfu_input(sfu::Input::Register {
        connection_id: 9,
        instance_id: "worker-1".to_string(),
        request_id: 1,
        capacity: sfu::Capacity {
            max_rooms: 10,
            max_clients: 100,
        },
    })
    .unwrap();
    c.handle_sfu_input(sfu::Input::Event {
        connection_id: 9,
        instance_id: "worker-1".to_string(),
        event: sfu::Event {
            request_id: 2,
            event: sfu::EventKind::Health(sfu::Health {
                state: sfu::State::Ready,
                capacity: sfu::Capacity {
                    max_rooms: 10,
                    max_clients: 100,
                },
                current_rooms: 0,
                current_clients: 0,
            }),
        },
    })
    .unwrap();
    outputs(c);
}

fn command(c: &mut Collider) -> sfu::Command {
    match c.poll_write() {
        Some(BrowserOutput::Sfu(sfu::Output::Command { command, .. })) => command,
        output => panic!("expected a command: {output:?}"),
    }
}

fn accept(c: &mut Collider, sent: sfu::Command, now: Instant) {
    let result = match sent.command {
        sfu::CommandKind::Join(join) => sfu::CommandOk::MemberJoined(join),
        sfu::CommandKind::Leave(left) => sfu::CommandOk::MemberLeft(left),
        _ => sfu::CommandOk::Acknowledged,
    };
    c.handle_sfu_input(sfu::Input::CommandResult {
        connection_id: 9,
        instance_id: "worker-1".to_string(),
        result: sfu::CommandResult {
            request_id: sent.request_id,
            result: Ok(result),
        },
        now,
    })
    .unwrap();
}

/// Three V2 members on a worker, with connections 101, 102 and 103.
fn v2_relayed() -> Collider {
    let mut c = v2_pair();
    ready_worker(&mut c);
    c.handle_write(AuthorityCommand {
        request_id: 103,
        operation: admit_v2(103),
    })
    .unwrap();
    assert_eq!(c.poll_event(), None);
    for _ in 0..3 {
        let sent = command(&mut c);
        accept(&mut c, sent, at(0));
    }
    assert_eq!(
        outputs(&mut c),
        vec![
            frame(
                101,
                r#"{"control":"sfu-upgrade","roomid":"42","epoch":"1"}"#.to_string()
            ),
            frame(
                102,
                r#"{"control":"sfu-upgrade","roomid":"42","epoch":"1"}"#.to_string()
            ),
        ]
    );
    assert_eq!(
        c.poll_event(),
        Some(AuthorityResponse {
            request_id: 103,
            result: AuthorityResult::AdmittedV2 {
                mode: RoomMode::Sfu,
                signal_epoch: 1,
                admission_token: "token-103".to_string(),
                is_initiator: None,
            },
        })
    );
    register_v2(&mut c, 103, 103);
    assert_eq!(
        outputs(&mut c),
        vec![frame(
            103,
            r#"{"control":"registered","roomid":"42","epoch":"1","mode":"sfu"}"#.to_string()
        )]
    );
    c
}

#[test]
fn every_protocol_error_is_answered_and_ends_the_connection() {
    let mut c = collider();
    let cases = [
        (
            r#"{"cmd":"#,
            "websocket.JSON.Receive error: EOF while parsing a value at line 1 column 7",
        ),
        (
            r#"{"cmd":1}"#,
            "websocket.JSON.Receive error: invalid type: integer `1`, expected a string",
        ),
        (r#"{"cmd":"leave"}"#, "Invalid message: unexpected 'cmd'"),
        (r#"{"cmd":"register","ver":1}"#, "INVALID_VERSION"),
        (
            r#"{"cmd":"register","roomid":"r"}"#,
            "Invalid register request: missing 'clientid' or 'roomid'",
        ),
        (
            r#"{"cmd":"register","ver":2,"roomid":"r","clientid":"1","token":"t"}"#,
            "INVALID_ROOM_ID",
        ),
        (
            r#"{"cmd":"register","ver":2,"roomid":"1","clientid":"c","token":"t"}"#,
            "INVALID_CLIENT_ID",
        ),
        (
            r#"{"cmd":"register","ver":2,"roomid":"1","clientid":"1"}"#,
            "UNAUTHORIZED",
        ),
        (
            r#"{"cmd":"register","ver":2,"roomid":"1","clientid":"1","token":"t"}"#,
            "UNAUTHORIZED",
        ),
        (r#"{"cmd":"send","msg":"m"}"#, "Client not registered"),
        (
            r#"{"cmd":"send"}"#,
            "Invalid send request: missing 'msg'",
        ),
    ];
    let mut connection_id = 0;
    for (value, error) in cases {
        connection_id += 1;
        connect(&mut c, connection_id);
        text(&mut c, connection_id, value);
        assert_eq!(outputs(&mut c), failure(connection_id, error));
    }
    text(&mut c, 77, r#"{"cmd":"send","msg":"m"}"#);
    assert_eq!(outputs(&mut c), failure(77, "Client not registered"));
    let counts = status(&mut c);
    assert_eq!(counts.websocket_errors, 12);
    assert_eq!(counts.rooms, 0);
    assert_eq!(counts.v2_rooms, 0);
    assert_eq!(counts.total_websocket_connections, 0);
}

#[test]
fn decoded_frames_are_handled_alike() {
    let mut c = v1_pair();
    let decoded = WsClientMsg {
        cmd: "send".to_string(),
        msg: "hello".to_string(),
        ..WsClientMsg::default()
    };
    c.handle_frame(10, Ok(decoded), at(0)).unwrap();
    assert_eq!(outputs(&mut c), vec![frame(20, server_msg("hello"))]);
    c.handle_frame(10, Err("broken".to_string()), at(0)).unwrap();
    assert_eq!(
        outputs(&mut c),
        failure(10, "websocket.JSON.Receive error: broken")
    );
}

#[test]
fn v1_messages_are_relayed_once_and_queued_while_the_peer_is_away() {
    let mut c = v1_pair();
    text(&mut c, 20, r#"{"cmd":"send","msg":"a \"quoted\" word"}"#);
    assert_eq!(
        outputs(&mut c),
        vec![frame(
            10,
            r#"{"msg":"a \"quoted\" word","error":""}"#.to_string()
        )]
    );
    disconnect(&mut c, 10, at(0));
    for msg in ["one", "two"] {
        text(&mut c, 20, &format!(r#"{{"cmd":"send","msg":"{msg}"}}"#));
    }
    assert_eq!(outputs(&mut c), vec![]);
    connect(&mut c, 11);
    text(
        &mut c,
        11,
        r#"{"cmd":"register","roomid":"room","clientid":"1"}"#,
    );
    assert_eq!(
        outputs(&mut c),
        vec![frame(11, server_msg("one")), frame(11, server_msg("two"))]
    );
}

#[test]
fn a_v1_queue_that_is_full_is_an_error_for_the_driver() {
    let mut c = collider();
    connect(&mut c, 10);
    text(
        &mut c,
        10,
        r#"{"cmd":"register","roomid":"room","clientid":"1"}"#,
    );
    for _ in 0..1024 {
        text(&mut c, 10, r#"{"cmd":"send","msg":"m"}"#);
    }
    assert_eq!(
        c.handle_read(BrowserInput::Text {
            connection_id: 10,
            text: r#"{"cmd":"send","msg":"m"}"#.to_string(),
            now: at(0),
        }),
        Err("Too many messages queued for the client".to_string())
    );
}

#[test]
fn every_answer_to_a_v1_room_server() {
    let mut c = collider();
    let join_room = |clientid: &str| AuthorityOperation::Admit {
        roomid: "room".to_string(),
        clientid: clientid.to_string(),
        is_loopback: false,
        now: at(0),
    };
    assert_eq!(
        ask(&mut c, 1, join_room("1")),
        AuthorityResult::Admitted {
            is_initiator: true,
            messages: vec![],
        }
    );
    assert_eq!(
        ask(&mut c, 2, join_room("1")),
        AuthorityResult::Error {
            result: "DUPLICATE_CLIENT".to_string(),
        }
    );
    assert_eq!(
        ask(&mut c, 3, join_room("2")),
        AuthorityResult::Admitted {
            is_initiator: false,
            messages: vec![],
        }
    );
    assert_eq!(
        ask(&mut c, 4, join_room("3")),
        AuthorityResult::Error {
            result: "FULL".to_string(),
        }
    );
    assert_eq!(
        ask(
            &mut c,
            5,
            AuthorityOperation::Occupancy {
                roomid: "room".to_string(),
            }
        ),
        AuthorityResult::Occupancy { count: 2 }
    );
    assert_eq!(
        ask(
            &mut c,
            6,
            AuthorityOperation::Inject {
                roomid: "room".to_string(),
                clientid: "3".to_string(),
                msg: "m".to_string(),
                now: at(0),
            }
        ),
        AuthorityResult::Error {
            result: "Max room capacity reached".to_string(),
        }
    );
    assert_eq!(
        ask(
            &mut c,
            7,
            AuthorityOperation::Remove {
                roomid: "room".to_string(),
                clientid: "1".to_string(),
            }
        ),
        AuthorityResult::Removed
    );
    assert_eq!(
        ask(
            &mut c,
            8,
            AuthorityOperation::Occupancy {
                roomid: "elsewhere".to_string(),
            }
        ),
        AuthorityResult::Occupancy { count: 0 }
    );
    let mut c = v1_pair();
    assert_eq!(
        ask(
            &mut c,
            9,
            AuthorityOperation::Inject {
                roomid: "room".to_string(),
                clientid: "1".to_string(),
                msg: "bye".to_string(),
                now: at(0),
            }
        ),
        AuthorityResult::Injected
    );
    assert_eq!(outputs(&mut c), vec![frame(20, server_msg("bye"))]);
}

#[test]
fn every_answer_to_a_v2_room_server() {
    let mut c = v2_pair();
    assert_eq!(
        ask(&mut c, 1, admit_v2(101)),
        AuthorityResult::Error {
            result: "DUPLICATE_CLIENT".to_string(),
        }
    );
    assert_eq!(
        ask(&mut c, 2, remove_v2(109)),
        AuthorityResult::Error {
            result: "CLIENT_NOT_FOUND".to_string(),
        }
    );
    assert_eq!(
        ask(&mut c, 3, AuthorityOperation::OccupancyV2 { room_id: 42 }),
        AuthorityResult::OccupancyV2 {
            count: 2,
            mode: RoomMode::P2p,
        }
    );
    assert_eq!(ask(&mut c, 4, remove_v2(101)), AuthorityResult::RemovedV2);
    assert_eq!(
        outputs(&mut c),
        vec![
            BrowserOutput::Close { connection_id: 101 },
            frame(
                102,
                r#"{"control":"p2p-promote","roomid":"42","epoch":"0","is_initiator":true}"#
                    .to_string()
            ),
        ]
    );
}

#[test]
fn stale_v2_messages_change_nothing() {
    let mut c = v2_pair();
    for epoch in [
        r#""1""#,
        r#""00""#,
        r#""""#,
        "0",
        "null",
        r#"["0"]"#,
    ] {
        text(
            &mut c,
            101,
            &format!(r#"{{"cmd":"send","epoch":{epoch},"msg":"m"}}"#),
        );
        assert_eq!(outputs(&mut c), vec![]);
    }
    text(&mut c, 101, r#"{"cmd":"send","epoch":"0","msg":"m"}"#);
    assert_eq!(outputs(&mut c), vec![frame(102, server_msg("m"))]);
}

#[test]
fn a_v2_browser_cannot_be_taken_over() {
    let mut c = v2_pair();
    register_v2(&mut c, 201, 101);
    assert_eq!(outputs(&mut c), failure(201, "Duplicated registration"));
    text(&mut c, 101, r#"{"cmd":"send","epoch":"0","msg":"m"}"#);
    assert_eq!(outputs(&mut c), vec![frame(102, server_msg("m"))]);
    text(
        &mut c,
        101,
        r#"{"cmd":"register","roomid":"42","clientid":"101","ver":2,"token":"token-101"}"#,
    );
    assert_eq!(outputs(&mut c), failure(101, "Duplicated register request"));
}

#[test]
fn a_v2_browser_that_comes_back_in_time_keeps_its_place() {
    let mut c = v2_pair();
    disconnect(&mut c, 101, at(0));
    assert_eq!(c.poll_timeout(), Some(at(10)));
    register_v2(&mut c, 201, 101);
    assert_eq!(c.poll_timeout(), None);
    outputs(&mut c);
    disconnect(&mut c, 101, at(1));
    assert_eq!(c.poll_timeout(), None);
    text(&mut c, 102, r#"{"cmd":"send","epoch":"0","msg":"m"}"#);
    assert_eq!(outputs(&mut c), vec![frame(201, server_msg("m"))]);
}

#[test]
fn time_promotes_the_member_that_is_left() {
    let mut c = v2_pair();
    disconnect(&mut c, 101, at(0));
    c.handle_timeout(at(9)).unwrap();
    assert_eq!(outputs(&mut c), vec![]);
    c.handle_timeout(at(10)).unwrap();
    assert_eq!(
        outputs(&mut c),
        vec![frame(
            102,
            r#"{"control":"p2p-promote","roomid":"42","epoch":"0","is_initiator":true}"#.to_string()
        )]
    );
    c.handle_timeout(at(20)).unwrap();
    assert_eq!(outputs(&mut c), vec![]);
}

#[test]
fn a_relayed_room_shrinks_back_to_a_direct_one() {
    let mut c = v2_relayed();
    c.set_downgrade_dwell(Duration::from_secs(3));
    c.handle_write(AuthorityCommand {
        request_id: 7,
        operation: remove_v2(103),
    })
    .unwrap();
    assert_eq!(c.poll_event(), None);
    let sent = command(&mut c);
    accept(&mut c, sent, at(1));
    assert_eq!(
        c.poll_event(),
        Some(AuthorityResponse {
            request_id: 7,
            result: AuthorityResult::RemovedV2,
        })
    );
    assert_eq!(
        outputs(&mut c),
        vec![BrowserOutput::Close { connection_id: 103 }]
    );
    assert_eq!(c.poll_timeout(), Some(at(4)));
    c.handle_timeout(at(4)).unwrap();
    for client_id in [101, 102] {
        let sent = command(&mut c);
        assert!(matches!(
            sent.command,
            sfu::CommandKind::Leave(left) if left.client_id == client_id
        ));
    }
    assert_eq!(
        outputs(&mut c),
        vec![
            frame(
                101,
                r#"{"control":"sfu-downgrade","roomid":"42","epoch":"2","is_initiator":true}"#
                    .to_string()
            ),
            frame(
                102,
                r#"{"control":"sfu-downgrade","roomid":"42","epoch":"2","is_initiator":false}"#
                    .to_string()
            ),
        ]
    );
    assert_eq!(
        ask(&mut c, 8, AuthorityOperation::OccupancyV2 { room_id: 42 }),
        AuthorityResult::OccupancyV2 {
            count: 2,
            mode: RoomMode::P2p,
        }
    );
}

#[test]
fn the_survivor_of_a_relayed_room_is_told_to_offer() {
    let mut c = v2_relayed();
    disconnect(&mut c, 103, at(1));
    let sent = command(&mut c);
    accept(&mut c, sent, at(1));
    assert_eq!(outputs(&mut c), vec![]);
    c.handle_write(AuthorityCommand {
        request_id: 7,
        operation: remove_v2(101),
    })
    .unwrap();
    let sent = command(&mut c);
    accept(&mut c, sent, at(2));
    assert_eq!(
        outputs(&mut c),
        vec![
            BrowserOutput::Close { connection_id: 101 },
            frame(
                102,
                r#"{"control":"p2p-promote","roomid":"42","epoch":"1","is_initiator":true}"#
                    .to_string()
            ),
        ]
    );
    assert_eq!(
        c.poll_event(),
        Some(AuthorityResponse {
            request_id: 7,
            result: AuthorityResult::RemovedV2,
        })
    );
    c.handle_timeout(at(2)).unwrap();
    assert_eq!(outputs(&mut c), vec![]);
}

#[test]
fn a_repeated_event_is_only_acknowledged_however_late() {
    let mut c = v2_relayed();
    let event = |request_id: u64, state: sfu::State| sfu::Input::Event {
        connection_id: 9,
        instance_id: "worker-1".to_string(),
        event: sfu::Event {
            request_id,
            event: sfu::EventKind::Health(sfu::Health {
                state,
                capacity: sfu::Capacity {
                    max_rooms: 10,
                    max_clients: 100,
                },
                current_rooms: 0,
                current_clients: 0,
            }),
        },
    };
    let others = EVENT_DEDUP_CAPACITY as u64 - 1;
    for request_id in 100..100 + others {
        c.handle_sfu_input(event(request_id, sfu::State::Ready))
            .unwrap();
    }
    outputs(&mut c);
    let before = status(&mut c);
    assert_eq!(c.handle_sfu_input(event(2, sfu::State::Draining)), Ok(()));
    assert_eq!(
        outputs(&mut c),
        vec![BrowserOutput::Sfu(sfu::Output::EventAck {
            connection_id: 9,
            request_id: 2,
        })]
    );
    assert_eq!(status(&mut c), before);
}

#[test]
fn a_lost_worker_fails_the_room_for_every_browser() {
    let mut c = v2_relayed();
    c.handle_sfu_input(sfu::Input::Disconnected {
        connection_id: 9,
        instance_id: "worker-1".to_string(),
        now: at(0),
    })
    .unwrap();
    c.handle_timeout(at(10)).unwrap();
    let expected: Vec<BrowserOutput> = [101, 102, 103]
        .into_iter()
        .map(|connection_id| {
            frame(
                connection_id,
                r#"{"control":"room-failed","roomid":"42","reason":"WORKER_UNAVAILABLE"}"#
                    .to_string(),
            )
        })
        .collect();
    assert_eq!(outputs(&mut c), expected);
}

#[test]
fn messages_of_relayed_browsers_go_through_the_worker() {
    let mut c = v2_relayed();
    text(&mut c, 101, r#"{"cmd":"send","epoch":"1","msg":"up"}"#);
    let sent = command(&mut c);
    let sfu::CommandKind::Signal(mut signal) = sent.command else {
        panic!("expected a signal");
    };
    assert_eq!(signal.message_json, "up");
    signal.client_id = 102;
    signal.message_json = "down".to_string();
    c.handle_sfu_input(sfu::Input::Event {
        connection_id: 9,
        instance_id: "worker-1".to_string(),
        event: sfu::Event {
            request_id: 40,
            event: sfu::EventKind::Signal(signal),
        },
    })
    .unwrap();
    assert_eq!(
        outputs(&mut c),
        vec![
            frame(102, server_msg("down")),
            BrowserOutput::Sfu(sfu::Output::EventAck {
                connection_id: 9,
                request_id: 40,
            }),
        ]
    );
    assert_eq!(
        c.handle_sfu_input(sfu::Input::CommandResult {
            connection_id: 8,
            instance_id: "worker-1".to_string(),
            result: sfu::CommandResult {
                request_id: 1,
                result: Ok(sfu::CommandOk::Acknowledged),
            },
            now: at(0),
        }),
        Err("STALE_SFU_SESSION".to_string())
    );
}

#[test]
fn the_status_counts_both_protocols() {
    let mut c = v2_relayed();
    for (connection_id, clientid) in [(10, "1"), (20, "2")] {
        connect(&mut c, connection_id);
        text(
            &mut c,
            connection_id,
            &format!(r#"{{"cmd":"register","roomid":"room","clientid":"{clientid}"}}"#),
        );
    }
    disconnect(&mut c, 20, at(0));
    assert_eq!(
        status(&mut c),
        StatusSnapshot {
            rooms: 1,
            v2_rooms: 1,
            clients: 5,
            websocket_connections: 4,
            total_websocket_connections: 5,
            websocket_errors: 0,
            connected_sfu_instances: 1,
            ready_sfu_instances: 1,
        }
    );
}

#[test]
fn the_earliest_deadline_of_both_protocols_counts() {
    let mut c = v2_pair();
    assert_eq!(c.poll_timeout(), None);
    disconnect(&mut c, 101, at(5));
    assert_eq!(c.poll_timeout(), Some(at(15)));
    ask(
        &mut c,
        1,
        AuthorityOperation::Admit {
            roomid: "room".to_string(),
            clientid: "1".to_string(),
            is_loopback: false,
            now: at(2),
        },
    );
    assert_eq!(c.poll_timeout(), Some(at(12)));
    assert_eq!(c.poll_read(), None);
}

#[test]
fn closing_ends_every_connection() {
    let mut c = v1_pair();
    connect(&mut c, 30);
    c.close().unwrap();
    assert_eq!(
        outputs(&mut c),
        vec![
            BrowserOutput::Close { connection_id: 10 },
            BrowserOutput::Close { connection_id: 20 },
            BrowserOutput::Close { connection_id: 30 },
        ]
    );
    assert_eq!(
        c.connection_of(&"room".to_string(), &"1".to_string()),
        None
    );
    let counts = status(&mut c);
    assert_eq!(counts.rooms, 0);
    assert_eq!(counts.websocket_connections, 0);
    assert_eq!(counts.total_websocket_connections, 2);
}
