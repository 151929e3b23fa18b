use signaling::sfu;
use signaling::time::{Duration, Instant};
use signaling::v2::{
    Action, Admission, AdmissionResult, Delivery, RemovalResult, RoomMode, RoomTable, SendResult,
    DOWNGRADE_DWELL_NANOS,
};

fn register_ready_worker(rooms: &mut RoomTable) {
    rooms
        .handle_sfu_input(sfu::Input::Register {
            connection_id: 9,
            instance_id: "worker-1".into(),
            request_id: 1,
            capacity: sfu::Capacity {
                max_rooms: 10,
                max_clients: 100,
            },
        })
        .unwrap();
    assert!(matches!(
        rooms.poll_action(),
        Some(Action::Sfu(sfu::Output::Registered { .. }))
    ));
    rooms
        .handle_sfu_input(sfu::Input::Event {
            connection_id: 9,
            instance_id: "worker-1".into(),
            event: sfu::Event {
                request_id: 2,
                event: sfu::EventKind::Health(sfu::Health {
                    state: sfu::State::Ready,
                    capacity: sfu::Capacity {
                        max_rooms: 10,
                        max_clients: 100,
                    },
                    current_rooms: 0,
                    current_clients: 0,
                }),
            },
        })
        .unwrap();
    assert!(matches!(
        rooms.poll_action(),
        Some(Action::Sfu(sfu::Output::EventAck { .. }))
    ));
}

#[test]
fn admission_registration_relay_and_promotion() {
    let now = Instant::from_nanos(1_000_000_000);
    let mut rooms = RoomTable::new(Duration::from_secs(10));
    let first = match rooms.admit_client(1, now, 42, 101, "token-1".into()).unwrap() {
        AdmissionResult::Complete(value) => value,
        AdmissionResult::Pending => panic!("first join cannot be pending"),
    };
    let second = match rooms.admit_client(2, now, 42, 102, "token-2".into()).unwrap() {
        AdmissionResult::Complete(value) => value,
        AdmissionResult::Pending => panic!("second join cannot be pending"),
    };
    assert_eq!(first.is_initiator, Some(true));
    assert_eq!(second.is_initiator, Some(false));
    assert_eq!(
        rooms.admit_client(3, now, 42, 103, "token-3".into()),
        Err("NO_SFU_AVAILABLE".into())
    );
    rooms.register(42, 101, &first.admission_token).unwrap();
    rooms.register(42, 102, &second.admission_token).unwrap();
    assert!(matches!(
        rooms.send(42, 101, 0, "candidate".into()).unwrap(),
        SendResult::P2p(Some(Delivery { client_id: 102, .. }))
    ));
    let promotion = match rooms.remove(3, 42, 102, &second.admission_token).unwrap() {
        RemovalResult::Complete(Some(promotion)) => promotion,
        result => panic!("unexpected removal result: {result:?}"),
    };
    assert_eq!(promotion.client_id, 101);
}

/// A lone member waiting for a peer must never be promoted by a timeout. The sweep runs
/// for every room whenever any deadline in the table fires, so an unrelated room's
/// reconnect grace must not hand this room's only member a `p2p-promote`, which its
/// browser renders as "the remote side hung up".
#[test]
fn idle_single_member_room_is_not_promoted_by_an_unrelated_timeout() {
    let now = Instant::from_nanos(1_000_000_000);
    let mut rooms = RoomTable::new(Duration::from_secs(10));

    // Room 7: two members, one of which disconnects and starts its reconnect grace.
    let leaving = match rooms.admit_client(1, now, 7, 701, "token-701".into()).unwrap() {
        AdmissionResult::Complete(value) => value,
        result => panic!("unexpected admission: {result:?}"),
    };
    let staying = match rooms.admit_client(2, now, 7, 702, "token-702".into()).unwrap() {
        AdmissionResult::Complete(value) => value,
        result => panic!("unexpected admission: {result:?}"),
    };
    rooms.register(7, 701, &leaving.admission_token).unwrap();
    rooms.register(7, 702, &staying.admission_token).unwrap();
    rooms.deregister(now, 7, 701);

    // Room 42: a single registered member waiting for someone to join.
    let alone = match rooms.admit_client(3, now, 42, 101, "token-101".into()).unwrap() {
        AdmissionResult::Complete(value) => value,
        result => panic!("unexpected admission: {result:?}"),
    };
    rooms.register(42, 101, &alone.admission_token).unwrap();

    // Room 7's grace expires. Its survivor is promoted; room 42 must be untouched.
    let promotions = rooms.handle_timeout(now + Duration::from_secs(11));
    assert_eq!(
        promotions.len(),
        1,
        "only room 7 may promote: {promotions:?}"
    );
    assert_eq!(promotions[0].room_id, 7);
    assert_eq!(promotions[0].client_id, 702);

    // And a later sweep with nothing pending promotes nobody at all.
    assert!(
        rooms
            .handle_timeout(now + Duration::from_secs(30))
            .is_empty(),
        "an idle sweep must not promote anyone"
    );
}

#[test]
fn third_join_commits_only_after_all_worker_join_results() {
    let now = Instant::from_nanos(1_000_000_000);
    let mut rooms = RoomTable::new(Duration::from_secs(10));
    register_ready_worker(&mut rooms);
    for (request, client) in [(10, 101), (11, 102)] {
        assert!(matches!(
            rooms
                .admit_client(request, now, 42, client, format!("token-{client}"))
                .unwrap(),
            AdmissionResult::Complete(_)
        ));
    }
    assert_eq!(
        rooms.admit_client(12, now, 42, 103, "token-103".into()).unwrap(),
        AdmissionResult::Pending
    );
    for expected_client in [101, 102, 103] {
        let command = match rooms.poll_action().unwrap() {
            Action::Sfu(sfu::Output::Command { command, .. }) => command,
            action => panic!("unexpected action: {action:?}"),
        };
        let join = match command.command {
            sfu::CommandKind::Join(join) => join,
            _ => panic!("expected join command"),
        };
        assert_eq!(join.client_id, expected_client);
        rooms
            .handle_sfu_input(sfu::Input::CommandResult {
                connection_id: 9,
                instance_id: "worker-1".into(),
                result: sfu::CommandResult {
                    request_id: command.request_id,
                    result: Ok(sfu::CommandOk::MemberJoined(join)),
                },
                now,
            })
            .unwrap();
    }
    assert!(matches!(
        rooms.poll_action(),
        Some(Action::Upgraded {
            signal_epoch: 1,
            ..
        })
    ));
    assert!(matches!(
        rooms.poll_action(),
        Some(Action::AdmissionCompleted {
            authority_request_id: 12,
            result: Ok(Admission {
                mode: RoomMode::Sfu,
                is_initiator: None,
                ..
            }),
        })
    ));
    assert_eq!(rooms.occupancy(42), (3, RoomMode::Sfu));

    assert_eq!(
        rooms.admit_client(13, now, 42, 104, "token-104".into()).unwrap(),
        AdmissionResult::Pending
    );
    let command = match rooms.poll_action().unwrap() {
        Action::Sfu(sfu::Output::Command { command, .. }) => command,
        action => panic!("unexpected action: {action:?}"),
    };
    let join = match command.command {
        sfu::CommandKind::Join(join) => join,
        _ => panic!("expected join command"),
    };
    rooms
        .handle_sfu_input(sfu::Input::CommandResult {
            connection_id: 9,
            instance_id: "worker-1".into(),
            result: sfu::CommandResult {
                request_id: command.request_id,
                result: Ok(sfu::CommandOk::MemberJoined(join)),
            },
            now,
        })
        .unwrap();
    assert!(matches!(
        rooms.poll_action(),
        Some(Action::AdmissionCompleted {
            authority_request_id: 13,
            result: Ok(Admission {
                mode: RoomMode::Sfu,
                ..
            }),
        })
    ));
    assert_eq!(rooms.occupancy(42), (4, RoomMode::Sfu));

    assert_eq!(
        rooms.remove(14, 42, 104, "token-104").unwrap(),
        RemovalResult::Pending
    );
    let command = match rooms.poll_action().unwrap() {
        Action::Sfu(sfu::Output::Command { command, .. }) => command,
        action => panic!("unexpected action: {action:?}"),
    };
    let leave = match command.command {
        sfu::CommandKind::Leave(leave) => leave,
        _ => panic!("expected leave command"),
    };
    rooms
        .handle_sfu_input(sfu::Input::CommandResult {
            connection_id: 9,
            instance_id: "worker-1".into(),
            result: sfu::CommandResult {
                request_id: command.request_id,
                result: Ok(sfu::CommandOk::MemberLeft(leave)),
            },
            now,
        })
        .unwrap();
    assert!(matches!(
        rooms.poll_action(),
        Some(Action::RemovalCompleted {
            authority_request_id: 14,
            result: Ok(()),
            ..
        })
    ));
    assert_eq!(rooms.occupancy(42), (3, RoomMode::Sfu));

    assert_eq!(
        rooms.send(42, 101, 1, r#"{"type":"candidate"}"#.into()),
        Ok(SendResult::Sfu)
    );
    let pending_signal = match rooms.poll_action().unwrap() {
        Action::Sfu(sfu::Output::Command { command, .. }) => command,
        action => panic!("unexpected signal action: {action:?}"),
    };
    rooms
        .handle_sfu_input(sfu::Input::Disconnected {
            connection_id: 9,
            instance_id: "worker-1".into(),
            now,
        })
        .unwrap();
    rooms
        .handle_sfu_input(sfu::Input::Register {
            connection_id: 10,
            instance_id: "worker-1".into(),
            request_id: 50,
            capacity: sfu::Capacity {
                max_rooms: 10,
                max_clients: 100,
            },
        })
        .unwrap();
    assert!(matches!(
        rooms.poll_action(),
        Some(Action::Sfu(sfu::Output::Registered { resumed: true, .. }))
    ));
    let sync = match rooms.poll_action().unwrap() {
        Action::Sfu(sfu::Output::Command { command, .. }) => command,
        action => panic!("unexpected reconnect action: {action:?}"),
    };
    let sync_room = match sync.command {
        sfu::CommandKind::SyncRoom(sync_room) => sync_room,
        _ => panic!("expected room synchronization"),
    };
    assert!(
        rooms.poll_action().is_none(),
        "replay must wait for RoomSynced"
    );
    rooms
        .handle_sfu_input(sfu::Input::CommandResult {
            connection_id: 10,
            instance_id: "worker-1".into(),
            result: sfu::CommandResult {
                request_id: sync.request_id,
                result: Ok(sfu::CommandOk::RoomSynced(sfu::RoomSynced {
                    room_id: sync_room.room_id,
                    assignment_epoch: sync_room.assignment_epoch,
                })),
            },
            now,
        })
        .unwrap();
    assert!(matches!(
        rooms.poll_action(),
        Some(Action::Sfu(sfu::Output::Command { command, connection_id: 10 }))
            if command == pending_signal
    ));
    assert_eq!(rooms.occupancy(42), (3, RoomMode::Sfu));
}

#[test]
fn worker_disconnect_grace_expires_assigned_rooms() {
    let now = Instant::from_nanos(1_000_000_000);
    let mut rooms = RoomTable::new(Duration::from_secs(10));
    register_ready_worker(&mut rooms);
    for (request, client) in [(10, 101), (11, 102)] {
        rooms
            .admit_client(request, now, 42, client, format!("token-{client}"))
            .unwrap();
    }
    rooms.admit_client(12, now, 42, 103, "token-103".into()).unwrap();
    for _ in 0..3 {
        let command = match rooms.poll_action().unwrap() {
            Action::Sfu(sfu::Output::Command { command, .. }) => command,
            action => panic!("unexpected action: {action:?}"),
        };
        let join = match command.command {
            sfu::CommandKind::Join(join) => join,
            _ => panic!("expected join"),
        };
        rooms
            .handle_sfu_input(sfu::Input::CommandResult {
                connection_id: 9,
                instance_id: "worker-1".into(),
                result: sfu::CommandResult {
                    request_id: command.request_id,
                    result: Ok(sfu::CommandOk::MemberJoined(join)),
                },
                now,
            })
            .unwrap();
    }
    assert!(matches!(rooms.poll_action(), Some(Action::Upgraded { .. })));
    assert!(matches!(
        rooms.poll_action(),
        Some(Action::AdmissionCompleted { .. })
    ));
    rooms
        .handle_sfu_input(sfu::Input::Disconnected {
            connection_id: 9,
            instance_id: "worker-1".into(),
            now,
        })
        .unwrap();
    rooms.handle_timeout(now + Duration::from_secs(10));
    assert!(matches!(
        rooms.poll_action(),
        Some(Action::RoomFailed { room_id: 42, .. })
    ));
    assert_eq!(rooms.occupancy(42), (3, RoomMode::Failed));
}

#[test]
fn sfu_member_disconnect_issues_immediate_leave() {
    let now = Instant::from_nanos(1_000_000_000);
    let mut rooms = RoomTable::new(Duration::from_secs(10));
    register_ready_worker(&mut rooms);
    let first = match rooms.admit_client(10, now, 42, 101, "token-101".into()).unwrap() {
        AdmissionResult::Complete(admission) => admission,
        result => panic!("unexpected admission: {result:?}"),
    };
    rooms.admit_client(11, now, 42, 102, "token-102".into()).unwrap();
    rooms.admit_client(12, now, 42, 103, "token-103".into()).unwrap();
    for _ in 0..3 {
        let command = match rooms.poll_action().unwrap() {
            Action::Sfu(sfu::Output::Command { command, .. }) => command,
            action => panic!("unexpected action: {action:?}"),
        };
        let join = match command.command {
            sfu::CommandKind::Join(join) => join,
            _ => panic!("expected join"),
        };
        rooms
            .handle_sfu_input(sfu::Input::CommandResult {
                connection_id: 9,
                instance_id: "worker-1".into(),
                result: sfu::CommandResult {
                    request_id: command.request_id,
                    result: Ok(sfu::CommandOk::MemberJoined(join)),
                },
                now,
            })
            .unwrap();
    }
    assert_eq!(rooms.occupancy(42), (3, RoomMode::Sfu));

    // Register client 101's browser WebSocket, then drain the upgrade/registration actions.
    rooms.register(42, 101, &first.admission_token).unwrap();
    while rooms.poll_action().is_some() {}

    // The WebSocket drops (browser close/refresh). An SFU member must be left immediately —
    // no reconnect grace — so the worker stops forwarding its media right away.
    rooms.deregister(now, 42, 101);
    let command = match rooms.poll_action().unwrap() {
        Action::Sfu(sfu::Output::Command { command, .. }) => command,
        action => panic!("expected immediate leave command, got: {action:?}"),
    };
    let leave = match command.command {
        sfu::CommandKind::Leave(leave) => leave,
        other => panic!("expected leave, got: {other:?}"),
    };
    assert_eq!(leave.room_id, 42);
    assert_eq!(leave.client_id, 101);
    assert!(matches!(leave.reason, sfu::LeaveReason::Disconnected));
    assert!(rooms.poll_action().is_none());
}

#[test]
fn sfu_room_downgrades_to_p2p_after_dwell_at_two_members() {
    let now = Instant::from_nanos(1_000_000_000);
    let mut rooms = RoomTable::new(Duration::from_secs(10));
    register_ready_worker(&mut rooms);
    let tokens = [(10, 101), (11, 102), (12, 103)].map(|(request, client)| {
        match rooms
            .admit_client(request, now, 42, client, format!("token-{client}"))
            .unwrap()
        {
            AdmissionResult::Complete(admission) => (client, admission.admission_token),
            AdmissionResult::Pending => (client, format!("token-{client}")),
        }
    });
    for _ in 0..3 {
        let command = match rooms.poll_action().unwrap() {
            Action::Sfu(sfu::Output::Command { command, .. }) => command,
            action => panic!("unexpected action: {action:?}"),
        };
        let join = match command.command {
            sfu::CommandKind::Join(join) => join,
            _ => panic!("expected join"),
        };
        rooms
            .handle_sfu_input(sfu::Input::CommandResult {
                connection_id: 9,
                instance_id: "worker-1".into(),
                result: sfu::CommandResult {
                    request_id: command.request_id,
                    result: Ok(sfu::CommandOk::MemberJoined(join)),
                },
                now,
            })
            .unwrap();
    }
    assert_eq!(rooms.occupancy(42), (3, RoomMode::Sfu));
    // Register the members so they carry no reconnect deadline (as real SFU members do).
    for (client, token) in &tokens {
        rooms.register(42, *client, token).unwrap();
    }
    while rooms.poll_action().is_some() {}

    // The third member leaves; drive its MemberLeft so the room shrinks to two.
    assert_eq!(
        rooms.remove(14, 42, 103, "token-103").unwrap(),
        RemovalResult::Pending
    );
    let command = match rooms.poll_action().unwrap() {
        Action::Sfu(sfu::Output::Command { command, .. }) => command,
        action => panic!("unexpected action: {action:?}"),
    };
    let leave = match command.command {
        sfu::CommandKind::Leave(leave) => leave,
        _ => panic!("expected leave"),
    };
    rooms
        .handle_sfu_input(sfu::Input::CommandResult {
            connection_id: 9,
            instance_id: "worker-1".into(),
            result: sfu::CommandResult {
                request_id: command.request_id,
                result: Ok(sfu::CommandOk::MemberLeft(leave)),
            },
            now,
        })
        .unwrap();
    while rooms.poll_action().is_some() {}
    assert_eq!(rooms.occupancy(42), (2, RoomMode::Sfu));

    // The dwell is armed and does not fire early.
    assert!(rooms.poll_timeout().is_some());
    rooms.handle_timeout(now + Duration::from_secs(1));
    assert_eq!(
        rooms.occupancy(42),
        (2, RoomMode::Sfu),
        "downgrade must wait out the dwell"
    );
    assert!(rooms.poll_action().is_none());

    // After the dwell, the room downgrades to direct P2P.
    rooms.handle_timeout(now + Duration::from_nanos(DOWNGRADE_DWELL_NANOS) + Duration::from_secs(1));
    assert_eq!(rooms.occupancy(42), (2, RoomMode::P2p));

    let mut leaves = 0;
    let mut downgraded = false;
    while let Some(action) = rooms.poll_action() {
        match action {
            Action::Sfu(sfu::Output::Command { command, .. }) => {
                assert!(matches!(command.command, sfu::CommandKind::Leave(_)));
                leaves += 1;
            }
            Action::Downgraded {
                room_id,
                signal_epoch,
                initiator_client_id,
                mut clients,
            } => {
                assert_eq!(room_id, 42);
                assert_eq!(signal_epoch, 2, "P2P->SFU->P2P bumps the epoch twice");
                assert_eq!(initiator_client_id, 101, "lowest client id offers");
                clients.sort_unstable();
                assert_eq!(clients, vec![101, 102]);
                downgraded = true;
            }
            other => panic!("unexpected action after downgrade: {other:?}"),
        }
    }
    assert_eq!(leaves, 2, "both remaining members' SFU legs must be left");
    assert!(downgraded, "a Downgraded control must be emitted");

    // A fresh third join can upgrade the room again.
    assert_eq!(
        rooms.admit_client(20, now, 42, 104, "token-104".into()).unwrap(),
        AdmissionResult::Pending
    );
    assert!(matches!(rooms.occupancy(42), (3, RoomMode::Upgrading)));
}
