use signaling::collider::{
    AuthorityCommand, AuthorityOperation, AuthorityResult, BrowserInput, BrowserOutput, Collider,
    ConnectionId,
};
use signaling::messages::{server_err, server_msg};
use signaling::text::canonical_u64;
use signaling::time::{Duration, Instant};
use signaling::v2;

fn text(collider: &mut Collider, connection_id: u64, value: &str, now: Instant) {
    collider
        .handle_read(BrowserInput::Text {
            connection_id,
            text: value.to_string(),
            now,
        })
        .unwrap();
}

fn connect(collider: &mut Collider, connection_id: u64) {
    collider
        .handle_read(BrowserInput::Connected { connection_id })
        .unwrap();
}

fn authority(
    collider: &mut Collider,
    request_id: u64,
    operation: AuthorityOperation,
) -> AuthorityResult {
    collider
        .handle_write(AuthorityCommand {
            request_id,
            operation,
        })
        .unwrap();
    let response = collider.poll_event().unwrap();
    assert_eq!(response.request_id, request_id);
    response.result
}

fn assert_error_and_close(collider: &mut Collider, connection_id: ConnectionId, error: &str) {
    assert_eq!(
        collider.poll_write(),
        Some(BrowserOutput::Text {
            connection_id,
            text: server_err(error),
        })
    );
    assert_eq!(
        collider.poll_write(),
        Some(BrowserOutput::Close { connection_id })
    );
}

#[test]
fn successful_v1_registration_is_silent_and_send_relays() {
    let now = Instant::from_nanos(1_000_000_000);
    let mut collider = Collider::new(Duration::from_secs(10));
    for (request_id, clientid) in [(1, "1"), (2, "2")] {
        assert!(matches!(
            authority(
                &mut collider,
                request_id,
                AuthorityOperation::Admit {
                    roomid: "room".into(),
                    clientid: clientid.into(),
                    is_loopback: false,
                    now,
                }
            ),
            AuthorityResult::Admitted { .. }
        ));
    }
    connect(&mut collider, 10);
    connect(&mut collider, 20);
    text(
        &mut collider,
        10,
        r#"{"cmd":"register","roomid":"room","clientid":"1"}"#,
        now,
    );
    text(
        &mut collider,
        20,
        r#"{"cmd":"register","roomid":"room","clientid":"2"}"#,
        now,
    );
    assert_eq!(collider.poll_write(), None);

    text(
        &mut collider,
        10,
        r#"{"cmd":"send","msg":"candidate"}"#,
        now,
    );
    assert_eq!(
        collider.poll_write(),
        Some(BrowserOutput::Text {
            connection_id: 20,
            text: r#"{"msg":"candidate","error":""}"#.into(),
        })
    );
}

#[test]
fn v2_requires_admission_then_acknowledges_and_relays_p2p_signals() {
    let now = Instant::from_nanos(1_000_000_000);
    let mut collider = Collider::new(Duration::from_secs(10));
    let first_token = match authority(
        &mut collider,
        1,
        AuthorityOperation::AdmitV2 {
            room_id: 42,
            client_id: 101,
            admission_token: "token-101".into(),
            now,
        },
    ) {
        AuthorityResult::AdmittedV2 {
            mode: v2::RoomMode::P2p,
            admission_token,
            is_initiator: Some(true),
            signal_epoch: 0,
        } => admission_token,
        result => panic!("unexpected first admission: {result:?}"),
    };
    let second_token = match authority(
        &mut collider,
        2,
        AuthorityOperation::AdmitV2 {
            room_id: 42,
            client_id: 102,
            admission_token: "token-102".into(),
            now,
        },
    ) {
        AuthorityResult::AdmittedV2 {
            mode: v2::RoomMode::P2p,
            admission_token,
            is_initiator: Some(false),
            signal_epoch: 0,
        } => admission_token,
        result => panic!("unexpected second admission: {result:?}"),
    };

    connect(&mut collider, 10);
    connect(&mut collider, 20);
    text(
        &mut collider,
        10,
        &format!(
            r#"{{"cmd":"register","roomid":"42","clientid":"101","ver":2,"token":"{first_token}"}}"#
        ),
        now,
    );
    assert_eq!(
        collider.poll_write(),
        Some(BrowserOutput::Text {
            connection_id: 10,
            text: r#"{"control":"registered","roomid":"42","epoch":"0","mode":"p2p","is_initiator":true}"#.into(),
        })
    );
    text(
        &mut collider,
        20,
        &format!(
            r#"{{"cmd":"register","roomid":"42","clientid":"102","ver":2,"token":"{second_token}"}}"#
        ),
        now,
    );
    assert_eq!(
        collider.poll_write(),
        Some(BrowserOutput::Text {
            connection_id: 20,
            text: r#"{"control":"registered","roomid":"42","epoch":"0","mode":"p2p","is_initiator":false}"#.into(),
        })
    );

    text(
        &mut collider,
        10,
        r#"{"cmd":"send","epoch":"0","msg":"candidate"}"#,
        now,
    );
    assert_eq!(
        collider.poll_write(),
        Some(BrowserOutput::Text {
            connection_id: 20,
            text: r#"{"msg":"candidate","error":""}"#.into(),
        })
    );
    text(
        &mut collider,
        10,
        r#"{"cmd":"send","epoch":"1","msg":"stale offer"}"#,
        now,
    );
    text(
        &mut collider,
        10,
        r#"{"cmd":"send","msg":"missing epoch"}"#,
        now,
    );
    assert_eq!(collider.poll_write(), None);
}

#[test]
fn v2_rejects_invalid_ids_tokens_and_third_member() {
    let now = Instant::from_nanos(1_000_000_000);
    let mut collider = Collider::new(Duration::from_secs(10));
    connect(&mut collider, 1);
    text(
        &mut collider,
        1,
        r#"{"cmd":"register","roomid":"042","clientid":"1","ver":2,"token":"x"}"#,
        now,
    );
    assert_error_and_close(&mut collider, 1, "INVALID_ROOM_ID");

    connect(&mut collider, 2);
    text(
        &mut collider,
        2,
        r#"{"cmd":"register","roomid":"42","clientid":"1","ver":2,"token":"wrong"}"#,
        now,
    );
    assert_error_and_close(&mut collider, 2, "UNAUTHORIZED");

    for (request_id, client_id) in [(1, 1), (2, 2)] {
        assert!(matches!(
            authority(
                &mut collider,
                request_id,
                AuthorityOperation::AdmitV2 {
                    room_id: 42,
                    client_id,
                    admission_token: format!("token-{client_id}"),
                    now,
                }
            ),
            AuthorityResult::AdmittedV2 { .. }
        ));
    }
    assert_eq!(
        authority(
            &mut collider,
            3,
            AuthorityOperation::AdmitV2 {
                room_id: 42,
                client_id: 3,
                admission_token: "token-3".into(),
                now,
            }
        ),
        AuthorityResult::Error {
            result: "NO_SFU_AVAILABLE".into()
        }
    );
}

#[test]
fn v2_leave_closes_member_and_promotes_survivor() {
    let now = Instant::from_nanos(1_000_000_000);
    let mut collider = Collider::new(Duration::from_secs(10));
    let mut tokens = Vec::new();
    for (request_id, client_id) in [(1, 1), (2, 2)] {
        let AuthorityResult::AdmittedV2 {
            admission_token, ..
        } = authority(
            &mut collider,
            request_id,
            AuthorityOperation::AdmitV2 {
                room_id: 9,
                client_id,
                admission_token: format!("token-{client_id}"),
                now,
            },
        )
        else {
            panic!("admission failed");
        };
        tokens.push(admission_token);
        connect(&mut collider, client_id);
        text(
            &mut collider,
            client_id,
            &format!(
                r#"{{"cmd":"register","roomid":"9","clientid":"{client_id}","ver":2,"token":"{}"}}"#,
                tokens.last().unwrap()
            ),
            now,
        );
        let _ = collider.poll_write();
    }

    assert_eq!(
        authority(
            &mut collider,
            3,
            AuthorityOperation::RemoveV2 {
                room_id: 9,
                client_id: 2,
                admission_token: tokens[1].clone(),
            }
        ),
        AuthorityResult::RemovedV2
    );
    assert_eq!(
        collider.poll_write(),
        Some(BrowserOutput::Close { connection_id: 2 })
    );
    assert_eq!(
        collider.poll_write(),
        Some(BrowserOutput::Text {
            connection_id: 1,
            text: r#"{"control":"p2p-promote","roomid":"9","epoch":"0","is_initiator":true}"#
                .into(),
        })
    );
}

#[test]
fn v2_registered_snapshot_precedes_queued_offer_and_trickle_ice() {
    let now = Instant::from_nanos(1_000_000_000);
    let mut collider = Collider::new(Duration::from_secs(10));
    for (request_id, client_id) in [(1, 1), (2, 2)] {
        assert!(matches!(
            authority(
                &mut collider,
                request_id,
                AuthorityOperation::AdmitV2 {
                    room_id: 5,
                    client_id,
                    admission_token: format!("token-{client_id}"),
                    now,
                }
            ),
            AuthorityResult::AdmittedV2 { .. }
        ));
    }
    connect(&mut collider, 1);
    text(
        &mut collider,
        1,
        r#"{"cmd":"register","roomid":"5","clientid":"1","ver":2,"token":"token-1"}"#,
        now,
    );
    let _ = collider.poll_write();
    text(
        &mut collider,
        1,
        r#"{"cmd":"send","epoch":"0","msg":"offer"}"#,
        now,
    );
    text(
        &mut collider,
        1,
        r#"{"cmd":"send","epoch":"0","msg":"candidate"}"#,
        now,
    );
    connect(&mut collider, 2);
    text(
        &mut collider,
        2,
        r#"{"cmd":"register","roomid":"5","clientid":"2","ver":2,"token":"token-2"}"#,
        now,
    );
    assert!(matches!(
        collider.poll_write(),
        Some(BrowserOutput::Text { text, .. }) if text.contains("registered")
    ));
    assert_eq!(
        collider.poll_write(),
        Some(BrowserOutput::Text {
            connection_id: 2,
            text: server_msg("offer"),
        })
    );
    assert_eq!(
        collider.poll_write(),
        Some(BrowserOutput::Text {
            connection_id: 2,
            text: server_msg("candidate"),
        })
    );
}

#[test]
fn v2_decimal_ids_are_canonical_u64_strings() {
    assert_eq!(canonical_u64("0"), Some(0));
    assert_eq!(canonical_u64("18446744073709551615"), Some(u64::MAX));
    for invalid in [
        "",
        "00",
        "01",
        "+1",
        "-1",
        " 1",
        "1 ",
        "1.0",
        "18446744073709551616",
    ] {
        assert_eq!(canonical_u64(invalid), None, "accepted {invalid:?}");
    }
}

#[test]
fn v1_protocol_errors_are_framed_then_close_the_socket() {
    let now = Instant::from_nanos(1_000_000_000);
    let mut collider = Collider::new(Duration::from_secs(10));
    connect(&mut collider, 1);
    text(&mut collider, 1, r#"{"cmd":"send","msg":"offer"}"#, now);
    assert_error_and_close(&mut collider, 1, "Client not registered");
}

#[test]
fn all_v1_validation_failures_preserve_legacy_errors() {
    let now = Instant::from_nanos(1_000_000_000);
    let mut collider = Collider::new(Duration::from_secs(10));

    connect(&mut collider, 1);
    text(
        &mut collider,
        1,
        r#"{"cmd":"register","roomid":"","clientid":"client"}"#,
        now,
    );
    assert_error_and_close(
        &mut collider,
        1,
        "Invalid register request: missing 'clientid' or 'roomid'",
    );

    connect(&mut collider, 2);
    text(
        &mut collider,
        2,
        r#"{"cmd":"register","roomid":"opaque-room","clientid":"opaque-client"}"#,
        now,
    );
    assert_eq!(collider.poll_write(), None);
    text(
        &mut collider,
        2,
        r#"{"cmd":"register","roomid":"opaque-room","clientid":"opaque-client"}"#,
        now,
    );
    assert_error_and_close(&mut collider, 2, "Duplicated register request");

    connect(&mut collider, 3);
    text(
        &mut collider,
        3,
        r#"{"cmd":"register","roomid":"other","clientid":"other"}"#,
        now,
    );
    text(&mut collider, 3, r#"{"cmd":"send","msg":""}"#, now);
    assert_error_and_close(&mut collider, 3, "Invalid send request: missing 'msg'");

    connect(&mut collider, 4);
    text(&mut collider, 4, r#"{"cmd":"wat"}"#, now);
    assert_error_and_close(&mut collider, 4, "Invalid message: unexpected 'cmd'");
}

#[test]
fn duplicate_live_client_registration_closes_only_the_new_socket() {
    let now = Instant::from_nanos(1_000_000_000);
    let mut collider = Collider::new(Duration::from_secs(10));
    connect(&mut collider, 1);
    connect(&mut collider, 2);
    for connection_id in [1, 2] {
        text(
            &mut collider,
            connection_id,
            r#"{"cmd":"register","roomid":"room","clientid":"client"}"#,
            now,
        );
    }
    assert_error_and_close(&mut collider, 2, "Duplicated registration");
    assert_eq!(
        collider.connection_of(&"room".into(), &"client".into()),
        Some(1)
    );
}

#[test]
fn authority_remove_closes_a_live_browser_connection() {
    let now = Instant::from_nanos(1_000_000_000);
    let mut collider = Collider::new(Duration::from_secs(10));
    connect(&mut collider, 1);
    text(
        &mut collider,
        1,
        r#"{"cmd":"register","roomid":"room","clientid":"client"}"#,
        now,
    );
    assert_eq!(
        authority(
            &mut collider,
            1,
            AuthorityOperation::Remove {
                roomid: "room".into(),
                clientid: "client".into(),
            }
        ),
        AuthorityResult::Removed
    );
    assert_eq!(
        collider.poll_write(),
        Some(BrowserOutput::Close { connection_id: 1 })
    );
}

#[test]
fn authority_admit_includes_queued_messages_for_v1_join() {
    let now = Instant::from_nanos(1_000_000_000);
    let mut collider = Collider::new(Duration::from_secs(10));
    assert!(matches!(
        authority(
            &mut collider,
            1,
            AuthorityOperation::Inject {
                roomid: "room".into(),
                clientid: "1".into(),
                msg: "offer".into(),
                now,
            }
        ),
        AuthorityResult::Injected
    ));
    assert_eq!(
        authority(
            &mut collider,
            2,
            AuthorityOperation::Admit {
                roomid: "room".into(),
                clientid: "2".into(),
                is_loopback: false,
                now,
            }
        ),
        AuthorityResult::Admitted {
            is_initiator: false,
            messages: vec!["offer".into()],
        }
    );
}

#[test]
fn stale_disconnect_does_not_deregister_replacement_connection() {
    let now = Instant::from_nanos(1_000_000_000);
    let mut collider = Collider::new(Duration::from_secs(10));
    connect(&mut collider, 1);
    text(
        &mut collider,
        1,
        r#"{"cmd":"register","roomid":"room","clientid":"1"}"#,
        now,
    );
    collider
        .handle_read(BrowserInput::Disconnected {
            connection_id: 1,
            now,
        })
        .unwrap();
    connect(&mut collider, 2);
    text(
        &mut collider,
        2,
        r#"{"cmd":"register","roomid":"room","clientid":"1"}"#,
        now,
    );
    collider
        .handle_read(BrowserInput::Disconnected {
            connection_id: 1,
            now,
        })
        .unwrap();
    assert_eq!(
        collider.connection_of(&"room".into(), &"1".into()),
        Some(2)
    );
}
