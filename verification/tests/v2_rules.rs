use signaling::sfu;
use signaling::time::{Duration, Instant};
use signaling::v2::{
    Action, Admission, AdmissionResult, Delivery, Promotion, RemovalResult, RoomMode, RoomTable,
    SendResult, DOWNGRADE_DWELL_NANOS, EVENT_DEDUP_CAPACITY, HEALTH_INTERVAL_MS,
    MAX_QUEUED_MESSAGES,
};

const ROOM: u64 = 42;

fn at(secs: u64) -> Instant {
    Instant::from_nanos(1_000_000_000) + Duration::from_secs(secs)
}

fn new_table() -> RoomTable {
    RoomTable::new(Duration::from_secs(10))
}

fn capacity(max_rooms: u64, max_clients: u64) -> sfu::Capacity {
    sfu::Capacity {
        max_rooms,
        max_clients,
    }
}

fn register_worker(rooms: &mut RoomTable, connection_id: u64, instance_id: &str, request_id: u64) {
    rooms
        .handle_sfu_input(sfu::Input::Register {
            connection_id,
            instance_id: instance_id.to_string(),
            request_id,
            capacity: capacity(10, 100),
        })
        .unwrap();
}

fn health(
    rooms: &mut RoomTable,
    connection_id: u64,
    instance_id: &str,
    request_id: u64,
    state: sfu::State,
    limits: sfu::Capacity,
) -> Result<(), String> {
    rooms.handle_sfu_input(sfu::Input::Event {
        connection_id,
        instance_id: instance_id.to_string(),
        event: sfu::Event {
            request_id,
            event: sfu::EventKind::Health(sfu::Health {
                state,
                capacity: limits,
                current_rooms: 0,
                current_clients: 0,
            }),
        },
    })
}

fn ready_worker(rooms: &mut RoomTable, connection_id: u64, instance_id: &str) {
    register_worker(rooms, connection_id, instance_id, 1);
    health(
        rooms,
        connection_id,
        instance_id,
        2,
        sfu::State::Ready,
        capacity(10, 100),
    )
    .unwrap();
}

fn drain(rooms: &mut RoomTable) -> Vec<Action> {
    let mut actions = Vec::new();
    while let Some(action) = rooms.poll_action() {
        actions.push(action);
    }
    actions
}

fn command(rooms: &mut RoomTable) -> (u64, sfu::Command) {
    match rooms.poll_action() {
        Some(Action::Sfu(sfu::Output::Command {
            connection_id,
            command,
        })) => (connection_id, command),
        action => panic!("expected a command: {action:?}"),
    }
}

fn answer(
    rooms: &mut RoomTable,
    connection_id: u64,
    instance_id: &str,
    request_id: u64,
    result: Result<sfu::CommandOk, sfu::Error>,
    now: Instant,
) -> Result<(), String> {
    rooms.handle_sfu_input(sfu::Input::CommandResult {
        connection_id,
        instance_id: instance_id.to_string(),
        result: sfu::CommandResult { request_id, result },
        now,
    })
}

fn error(reason: &str) -> sfu::Error {
    sfu::Error {
        reason: reason.to_string(),
        retryable: false,
    }
}

fn join_room(rooms: &mut RoomTable, request_id: u64, client_id: u64) -> Result<AdmissionResult, String> {
    rooms.admit_client(request_id, at(0), ROOM, client_id, format!("token-{client_id}"))
}

fn register(rooms: &mut RoomTable, client_id: u64) {
    rooms
        .register(ROOM, client_id, &format!("token-{client_id}"))
        .unwrap();
}

/// A direct room of two connected members.
fn pair() -> RoomTable {
    let mut rooms = new_table();
    for client_id in [101, 102] {
        join_room(&mut rooms, client_id, client_id).unwrap();
        register(&mut rooms, client_id);
    }
    rooms
}

/// Accepts the joins that a room waits for.
fn accept_joins(rooms: &mut RoomTable, connection_id: u64, instance_id: &str, count: usize) {
    for _ in 0..count {
        let (_, sent) = command(rooms);
        let sfu::CommandKind::Join(join) = sent.command else {
            panic!("expected a join");
        };
        answer(
            rooms,
            connection_id,
            instance_id,
            sent.request_id,
            Ok(sfu::CommandOk::MemberJoined(join)),
            at(0),
        )
        .unwrap();
    }
}

/// A room of three connected members on a worker, with nothing left to do.
fn relayed() -> RoomTable {
    let mut rooms = pair();
    ready_worker(&mut rooms, 9, "worker-1");
    drain(&mut rooms);
    assert_eq!(join_room(&mut rooms, 12, 103), Ok(AdmissionResult::Pending));
    accept_joins(&mut rooms, 9, "worker-1", 3);
    drain(&mut rooms);
    register(&mut rooms, 103);
    rooms
}

fn leave(rooms: &mut RoomTable, client_id: u64, now: Instant) {
    rooms.deregister(now, ROOM, client_id);
    let (_, sent) = command(rooms);
    let sfu::CommandKind::Leave(left) = sent.command else {
        panic!("expected a leave");
    };
    assert_eq!(left.client_id, client_id);
    answer(
        rooms,
        9,
        "worker-1",
        sent.request_id,
        Ok(sfu::CommandOk::MemberLeft(left)),
        now,
    )
    .unwrap();
}

#[test]
fn every_refusal_of_an_admission() {
    let mut rooms = pair();
    assert_eq!(
        join_room(&mut rooms, 1, 101),
        Err("DUPLICATE_CLIENT".to_string())
    );
    assert_eq!(
        join_room(&mut rooms, 1, 103),
        Err("NO_SFU_AVAILABLE".to_string())
    );
    ready_worker(&mut rooms, 9, "worker-1");
    assert_eq!(join_room(&mut rooms, 1, 103), Ok(AdmissionResult::Pending));
    assert_eq!(
        join_room(&mut rooms, 2, 104),
        Err("ROOM_TRANSITION".to_string())
    );

    let mut rooms = relayed();
    assert_eq!(join_room(&mut rooms, 20, 104), Ok(AdmissionResult::Pending));
    assert_eq!(
        join_room(&mut rooms, 21, 105),
        Err("ROOM_TRANSITION".to_string())
    );
    let mut rooms = relayed();
    rooms
        .handle_sfu_input(sfu::Input::Disconnected {
            connection_id: 9,
            instance_id: "worker-1".to_string(),
            now: at(0),
        })
        .unwrap();
    assert_eq!(
        join_room(&mut rooms, 20, 104),
        Err("WORKER_UNAVAILABLE".to_string())
    );
    rooms.handle_timeout(at(10));
    assert_eq!(rooms.occupancy(ROOM).1, RoomMode::Failed);
    assert_eq!(
        join_room(&mut rooms, 20, 104),
        Err("WORKER_UNAVAILABLE".to_string())
    );
}

#[test]
fn every_refusal_of_a_registration() {
    let mut rooms = new_table();
    assert_eq!(
        rooms.register(ROOM, 101, "token-101"),
        Err("UNAUTHORIZED".to_string())
    );
    join_room(&mut rooms, 1, 101).unwrap();
    assert_eq!(
        rooms.register(ROOM, 102, "token-101"),
        Err("UNAUTHORIZED".to_string())
    );
    assert_eq!(
        rooms.register(ROOM, 101, "token-10"),
        Err("UNAUTHORIZED".to_string())
    );
    register(&mut rooms, 101);
    assert_eq!(
        rooms.register(ROOM, 101, "token-101"),
        Err("Duplicated registration".to_string())
    );
    assert_eq!(rooms.registered_count(), 1);

    join_room(&mut rooms, 2, 102).unwrap();
    ready_worker(&mut rooms, 9, "worker-1");
    join_room(&mut rooms, 3, 103).unwrap();
    assert_eq!(
        rooms.register(ROOM, 102, "token-102"),
        Err("ROOM_TRANSITION".to_string())
    );
}

#[test]
fn messages_of_other_epochs_are_dropped() {
    let mut rooms = pair();
    assert_eq!(
        rooms.send(ROOM, 101, 1, "m".to_string()),
        Ok(SendResult::Dropped)
    );
    assert_eq!(
        rooms.send(7, 101, 0, "m".to_string()),
        Err("CLIENT_NOT_FOUND".to_string())
    );
    assert_eq!(
        rooms.send(ROOM, 109, 0, "m".to_string()),
        Err("CLIENT_NOT_FOUND".to_string())
    );
    assert_eq!(
        rooms.send(ROOM, 101, 0, "m".to_string()),
        Ok(SendResult::P2p(Some(Delivery {
            room_id: ROOM,
            client_id: 102,
            message: "m".to_string(),
        })))
    );
    let mut rooms = relayed();
    assert_eq!(
        rooms.send(ROOM, 101, 0, "m".to_string()),
        Ok(SendResult::Dropped)
    );
    assert_eq!(drain(&mut rooms), vec![]);
}

#[test]
fn early_messages_are_replayed_in_order() {
    let mut rooms = new_table();
    join_room(&mut rooms, 1, 101).unwrap();
    register(&mut rooms, 101);
    join_room(&mut rooms, 2, 102).unwrap();
    for msg in ["offer", "one", "two"] {
        assert_eq!(
            rooms.send(ROOM, 101, 0, msg.to_string()),
            Ok(SendResult::P2p(None))
        );
    }
    let registration = rooms.register(ROOM, 102, "token-102").unwrap();
    assert_eq!(registration.mode, RoomMode::P2p);
    assert_eq!(registration.signal_epoch, 0);
    assert_eq!(registration.is_initiator, Some(false));
    assert_eq!(registration.queued_messages, vec!["offer", "one", "two"]);
    rooms.deregister(at(0), ROOM, 102);
    let again = rooms.register(ROOM, 102, "token-102").unwrap();
    assert!(again.queued_messages.is_empty());
}

#[test]
fn a_member_queues_only_so_much() {
    let mut rooms = new_table();
    join_room(&mut rooms, 1, 101).unwrap();
    for _ in 0..MAX_QUEUED_MESSAGES {
        rooms.send(ROOM, 101, 0, "m".to_string()).unwrap();
    }
    assert_eq!(
        rooms.send(ROOM, 101, 0, "m".to_string()),
        Err("RESOURCE_EXHAUSTED".to_string())
    );
}

#[test]
fn every_outcome_of_a_direct_removal() {
    let mut rooms = pair();
    assert_eq!(
        rooms.remove(1, 7, 101, "token-101"),
        Err("ROOM_NOT_FOUND".to_string())
    );
    assert_eq!(
        rooms.remove(1, ROOM, 109, "token-109"),
        Err("CLIENT_NOT_FOUND".to_string())
    );
    assert_eq!(
        rooms.remove(1, ROOM, 101, "token-102"),
        Err("UNAUTHORIZED".to_string())
    );
    assert_eq!(
        rooms.remove(1, ROOM, 101, "token-101"),
        Ok(RemovalResult::Complete(Some(Promotion {
            room_id: ROOM,
            client_id: 102,
            signal_epoch: 0,
        })))
    );
    assert_eq!(
        rooms.remove(2, ROOM, 102, "token-102"),
        Ok(RemovalResult::Complete(None))
    );
    assert_eq!(rooms.room_count(), 0);
    assert_eq!(rooms.occupancy(ROOM), (0, RoomMode::P2p));
}

#[test]
fn a_survivor_that_is_away_is_promoted_silently() {
    let mut rooms = new_table();
    join_room(&mut rooms, 1, 101).unwrap();
    join_room(&mut rooms, 2, 102).unwrap();
    assert_eq!(
        rooms.remove(3, ROOM, 101, "token-101"),
        Ok(RemovalResult::Complete(None))
    );
    let registration = rooms.register(ROOM, 102, "token-102").unwrap();
    assert_eq!(registration.is_initiator, Some(true));
}

#[test]
fn a_direct_member_has_a_grace() {
    let mut rooms = pair();
    rooms.deregister(at(5), ROOM, 101);
    assert_eq!(rooms.poll_timeout(), Some(at(15)));
    assert_eq!(rooms.handle_timeout(at(14)), vec![]);
    assert_eq!(rooms.occupancy(ROOM), (2, RoomMode::P2p));
    assert_eq!(
        rooms.handle_timeout(at(15)),
        vec![Promotion {
            room_id: ROOM,
            client_id: 102,
            signal_epoch: 0,
        }]
    );
    assert_eq!(rooms.poll_timeout(), None);
    assert_eq!(rooms.handle_timeout(at(100)), vec![]);
    assert_eq!(rooms.occupancy(ROOM), (1, RoomMode::P2p));
}

#[test]
fn a_member_that_never_registers_is_removed() {
    let mut rooms = new_table();
    join_room(&mut rooms, 1, 101).unwrap();
    assert_eq!(rooms.poll_timeout(), Some(at(10)));
    assert_eq!(rooms.handle_timeout(at(10)), vec![]);
    assert_eq!(rooms.room_count(), 0);
}

#[test]
fn an_upgrade_takes_the_least_loaded_worker() {
    let mut rooms = new_table();
    for (connection_id, instance_id) in [(1, "b"), (2, "a"), (3, "c")] {
        ready_worker(&mut rooms, connection_id, instance_id);
    }
    drain(&mut rooms);
    assert_eq!(rooms.connected_sfu_count(), 3);
    assert_eq!(rooms.ready_sfu_count(), 3);
    let mut chosen = Vec::new();
    for room_id in [1, 2, 3, 4] {
        for client_id in [1, 2, 3] {
            let _ = rooms.admit_client(client_id, at(0), room_id, client_id, "t".to_string());
        }
        let (connection_id, sent) = command(&mut rooms);
        assert!(matches!(sent.command, sfu::CommandKind::Join(_)));
        chosen.push(connection_id);
    }
    assert_eq!(chosen, vec![2, 1, 3, 2]);
}

#[test]
fn workers_that_cannot_host_are_passed_over() {
    let mut rooms = pair();
    register_worker(&mut rooms, 1, "silent", 1);
    register_worker(&mut rooms, 2, "draining", 1);
    health(
        &mut rooms,
        2,
        "draining",
        2,
        sfu::State::Draining,
        capacity(10, 100),
    )
    .unwrap();
    register_worker(&mut rooms, 3, "small", 1);
    health(
        &mut rooms,
        3,
        "small",
        2,
        sfu::State::Ready,
        capacity(10, 2),
    )
    .unwrap();
    assert_eq!(rooms.connected_sfu_count(), 3);
    assert_eq!(rooms.ready_sfu_count(), 1);
    assert_eq!(
        join_room(&mut rooms, 1, 103),
        Err("NO_SFU_AVAILABLE".to_string())
    );
}

#[test]
fn an_upgrade_waits_for_every_join() {
    let mut rooms = pair();
    ready_worker(&mut rooms, 9, "worker-1");
    drain(&mut rooms);
    assert_eq!(join_room(&mut rooms, 12, 103), Ok(AdmissionResult::Pending));
    for expected in [101, 102] {
        assert_eq!(rooms.occupancy(ROOM), (3, RoomMode::Upgrading));
        let (connection_id, sent) = command(&mut rooms);
        assert_eq!(connection_id, 9);
        let sfu::CommandKind::Join(join) = sent.command else {
            panic!("expected a join");
        };
        assert_eq!(join.client_id, expected);
        assert_eq!(join.assignment_epoch, 1);
        assert_eq!(rooms.handle_timeout(at(5)), vec![]);
        assert_eq!(
            rooms.send(ROOM, 101, 0, "m".to_string()),
            Ok(SendResult::Dropped)
        );
        answer(
            &mut rooms,
            9,
            "worker-1",
            sent.request_id,
            Ok(sfu::CommandOk::MemberJoined(join)),
            at(0),
        )
        .unwrap();
    }
    assert_eq!(rooms.occupancy(ROOM), (3, RoomMode::Upgrading));
    accept_joins(&mut rooms, 9, "worker-1", 1);
    assert_eq!(rooms.occupancy(ROOM), (3, RoomMode::Sfu));
    assert_eq!(
        drain(&mut rooms),
        vec![
            Action::Upgraded {
                room_id: ROOM,
                signal_epoch: 1,
                existing_clients: vec![101, 102],
            },
            Action::AdmissionCompleted {
                authority_request_id: 12,
                result: Ok(Admission {
                    mode: RoomMode::Sfu,
                    signal_epoch: 1,
                    admission_token: "token-103".to_string(),
                    is_initiator: None,
                }),
            },
        ]
    );
}

#[test]
fn a_refused_join_ends_the_upgrade() {
    for (reason, told) in [("FULL", "FULL"), ("", "WORKER_UNAVAILABLE")] {
        let mut rooms = pair();
        ready_worker(&mut rooms, 9, "worker-1");
        drain(&mut rooms);
        join_room(&mut rooms, 12, 103).unwrap();
        accept_joins(&mut rooms, 9, "worker-1", 1);
        let (_, sent) = command(&mut rooms);
        answer(
            &mut rooms,
            9,
            "worker-1",
            sent.request_id,
            Err(error(reason)),
            at(0),
        )
        .unwrap();
        assert_eq!(rooms.occupancy(ROOM), (2, RoomMode::P2p));
        let (_, left) = command(&mut rooms);
        assert!(matches!(
            left.command,
            sfu::CommandKind::Leave(sfu::LeaveMember {
                client_id: 101,
                reason: sfu::LeaveReason::RoomClosed,
                ..
            })
        ));
        assert_eq!(
            drain(&mut rooms),
            vec![Action::AdmissionCompleted {
                authority_request_id: 12,
                result: Err(told.to_string()),
            }]
        );
        assert!(matches!(
            rooms.send(ROOM, 101, 0, "m".to_string()),
            Ok(SendResult::P2p(Some(_)))
        ));
    }
}

#[test]
fn a_join_of_another_member_ends_the_upgrade() {
    let mut rooms = pair();
    ready_worker(&mut rooms, 9, "worker-1");
    drain(&mut rooms);
    join_room(&mut rooms, 12, 103).unwrap();
    let (_, sent) = command(&mut rooms);
    let sfu::CommandKind::Join(mut join) = sent.command else {
        panic!("expected a join");
    };
    join.lifecycle_id += 1;
    answer(
        &mut rooms,
        9,
        "worker-1",
        sent.request_id,
        Ok(sfu::CommandOk::MemberJoined(join)),
        at(0),
    )
    .unwrap();
    assert_eq!(
        drain(&mut rooms),
        vec![Action::AdmissionCompleted {
            authority_request_id: 12,
            result: Err("INVALID_COMMAND_RESULT".to_string()),
        }]
    );
}

#[test]
fn a_relayed_member_leaves_at_once_and_the_dwell_starts() {
    let mut rooms = relayed();
    leave(&mut rooms, 103, at(3));
    assert_eq!(rooms.occupancy(ROOM), (2, RoomMode::Sfu));
    assert_eq!(rooms.poll_timeout(), Some(at(5)));
    assert_eq!(DOWNGRADE_DWELL_NANOS, 2_000_000_000);
    assert_eq!(drain(&mut rooms), vec![]);
    leave(&mut rooms, 101, at(4));
    assert_eq!(
        drain(&mut rooms),
        vec![Action::Promoted(Promotion {
            room_id: ROOM,
            client_id: 102,
            signal_epoch: 1,
        })]
    );
    assert_eq!(rooms.poll_timeout(), Some(at(5)));
    rooms.handle_timeout(at(4));
    assert_eq!(rooms.occupancy(ROOM), (1, RoomMode::Sfu));
    assert_eq!(rooms.handle_timeout(at(5)), vec![]);
    assert_eq!(rooms.occupancy(ROOM), (1, RoomMode::P2p));
    let (_, sent) = command(&mut rooms);
    assert!(matches!(
        sent.command,
        sfu::CommandKind::Leave(sfu::LeaveMember {
            client_id: 102,
            reason: sfu::LeaveReason::RoomClosed,
            ..
        })
    ));
    assert_eq!(
        drain(&mut rooms),
        vec![Action::Downgraded {
            room_id: ROOM,
            signal_epoch: 2,
            initiator_client_id: 102,
            clients: vec![102],
        }]
    );
}

#[test]
fn the_survivor_of_a_relayed_room_is_promoted_once() {
    let mut rooms = relayed();
    leave(&mut rooms, 103, at(1));
    assert_eq!(
        rooms.remove(30, ROOM, 102, "token-102"),
        Ok(RemovalResult::Pending)
    );
    let (_, sent) = command(&mut rooms);
    let sfu::CommandKind::Leave(left) = sent.command else {
        panic!("expected a leave");
    };
    answer(
        &mut rooms,
        9,
        "worker-1",
        sent.request_id,
        Ok(sfu::CommandOk::MemberLeft(left)),
        at(1),
    )
    .unwrap();
    assert_eq!(
        drain(&mut rooms),
        vec![
            Action::RemovalCompleted {
                authority_request_id: 30,
                room_id: ROOM,
                client_id: 102,
                result: Ok(()),
            },
            Action::Promoted(Promotion {
                room_id: ROOM,
                client_id: 101,
                signal_epoch: 1,
            }),
        ]
    );
    assert_eq!(rooms.occupancy(ROOM), (1, RoomMode::Sfu));
    assert_eq!(rooms.handle_timeout(at(2)), vec![]);
    assert_eq!(drain(&mut rooms), vec![]);
    leave(&mut rooms, 101, at(2));
    assert_eq!(drain(&mut rooms), vec![]);
    assert_eq!(rooms.room_count(), 0);
}

#[test]
fn a_survivor_of_a_relayed_room_that_is_away_is_not_told() {
    let mut rooms = pair();
    ready_worker(&mut rooms, 9, "worker-1");
    drain(&mut rooms);
    join_room(&mut rooms, 12, 103).unwrap();
    accept_joins(&mut rooms, 9, "worker-1", 3);
    drain(&mut rooms);
    leave(&mut rooms, 101, at(1));
    leave(&mut rooms, 102, at(1));
    assert_eq!(drain(&mut rooms), vec![]);
    rooms.handle_timeout(at(3));
    drain(&mut rooms);
    let registration = rooms.register(ROOM, 103, "token-103").unwrap();
    assert_eq!(registration.mode, RoomMode::P2p);
    assert_eq!(registration.is_initiator, Some(true));
}

#[test]
fn a_small_room_is_direct_after_the_dwell_that_was_set() {
    let mut rooms = relayed();
    rooms.set_downgrade_dwell(Duration::from_secs(5));
    leave(&mut rooms, 103, at(1));
    rooms.handle_timeout(at(5));
    assert_eq!(rooms.occupancy(ROOM), (2, RoomMode::Sfu));
    rooms.handle_timeout(at(6));
    assert_eq!(rooms.occupancy(ROOM), (2, RoomMode::P2p));
}

#[test]
fn a_dwell_that_is_running_keeps_its_end() {
    let mut rooms = relayed();
    leave(&mut rooms, 103, at(1));
    rooms.set_downgrade_dwell(Duration::from_secs(50));
    assert_eq!(rooms.poll_timeout(), Some(at(3)));
    leave(&mut rooms, 102, at(2));
    assert_eq!(rooms.poll_timeout(), Some(at(3)));
    rooms.handle_timeout(at(3));
    assert_eq!(rooms.occupancy(ROOM), (1, RoomMode::P2p));
}

#[test]
fn a_refused_third_member_leaves_the_dwell_to_the_room() {
    let mut rooms = relayed();
    leave(&mut rooms, 103, at(1));
    rooms
        .admit_client(20, at(2), ROOM, 104, "token-104".to_string())
        .unwrap();
    assert_eq!(rooms.poll_timeout(), Some(at(12)));
    let (_, sent) = command(&mut rooms);
    answer(
        &mut rooms,
        9,
        "worker-1",
        sent.request_id,
        Err(error("FULL")),
        at(4),
    )
    .unwrap();
    assert_eq!(rooms.occupancy(ROOM), (2, RoomMode::Sfu));
    assert_eq!(rooms.poll_timeout(), Some(at(6)));
    rooms.handle_timeout(at(5));
    assert_eq!(rooms.occupancy(ROOM), (2, RoomMode::Sfu));
    rooms.handle_timeout(at(6));
    assert_eq!(rooms.occupancy(ROOM), (2, RoomMode::P2p));
}

#[test]
fn a_refused_leave_leaves_the_dwell_to_the_room() {
    let mut rooms = relayed();
    leave(&mut rooms, 103, at(1));
    assert_eq!(
        rooms.remove(30, ROOM, 102, "token-102"),
        Ok(RemovalResult::Pending)
    );
    let (_, sent) = command(&mut rooms);
    rooms.handle_timeout(at(3));
    assert_eq!(rooms.occupancy(ROOM), (2, RoomMode::Sfu));
    assert_eq!(rooms.poll_timeout(), None);
    answer(
        &mut rooms,
        9,
        "worker-1",
        sent.request_id,
        Err(error("BUSY")),
        at(4),
    )
    .unwrap();
    assert_eq!(rooms.poll_timeout(), Some(at(6)));
    rooms.handle_timeout(at(6));
    assert_eq!(rooms.occupancy(ROOM), (2, RoomMode::P2p));
}

#[test]
fn a_leave_refused_within_the_dwell_keeps_its_end() {
    let mut rooms = relayed();
    leave(&mut rooms, 103, at(1));
    rooms.remove(30, ROOM, 102, "token-102").unwrap();
    let (_, sent) = command(&mut rooms);
    answer(
        &mut rooms,
        9,
        "worker-1",
        sent.request_id,
        Err(error("BUSY")),
        at(2),
    )
    .unwrap();
    assert_eq!(rooms.poll_timeout(), Some(at(3)));
}

#[test]
fn a_relayed_room_that_grows_to_two_is_still_small() {
    let mut rooms = relayed();
    leave(&mut rooms, 103, at(1));
    leave(&mut rooms, 102, at(1));
    drain(&mut rooms);
    rooms
        .admit_client(20, at(2), ROOM, 104, "token-104".to_string())
        .unwrap();
    let (_, sent) = command(&mut rooms);
    let sfu::CommandKind::Join(join) = sent.command else {
        panic!("expected a join");
    };
    answer(
        &mut rooms,
        9,
        "worker-1",
        sent.request_id,
        Ok(sfu::CommandOk::MemberJoined(join)),
        at(3),
    )
    .unwrap();
    assert_eq!(rooms.occupancy(ROOM), (2, RoomMode::Sfu));
    assert_eq!(rooms.poll_timeout(), Some(at(5)));
    rooms.handle_timeout(at(5));
    assert_eq!(rooms.occupancy(ROOM), (2, RoomMode::P2p));
}

#[test]
fn a_join_of_an_upgrade_that_was_given_up_is_not_counted() {
    let mut rooms = pair();
    ready_worker(&mut rooms, 9, "worker-1");
    drain(&mut rooms);
    join_room(&mut rooms, 12, 103).unwrap();
    let (_, stale) = command(&mut rooms);
    let sfu::CommandKind::Join(stale_join) = stale.command else {
        panic!("expected a join");
    };
    rooms
        .handle_sfu_input(sfu::Input::Event {
            connection_id: 9,
            instance_id: "worker-1".to_string(),
            event: sfu::Event {
                request_id: 70,
                event: sfu::EventKind::Failure {
                    error: error("MEDIA"),
                    room_id: Some(ROOM),
                    client_id: None,
                    lifecycle_id: None,
                    sdp_request_id: None,
                },
            },
        })
        .unwrap();
    for client_id in [101, 102, 103] {
        rooms
            .remove(client_id, ROOM, client_id, &format!("token-{client_id}"))
            .unwrap();
    }
    assert_eq!(rooms.room_count(), 0);
    for client_id in [101, 102, 103] {
        join_room(&mut rooms, client_id, client_id).unwrap();
    }
    drain(&mut rooms);
    assert_eq!(
        answer(
            &mut rooms,
            9,
            "worker-1",
            stale.request_id,
            Ok(sfu::CommandOk::MemberJoined(stale_join)),
            at(1),
        ),
        Err("ROOM_TRANSITION".to_string())
    );
    assert_eq!(rooms.occupancy(ROOM), (3, RoomMode::Upgrading));
    assert_eq!(drain(&mut rooms), vec![]);
}

#[test]
fn a_new_member_cancels_the_dwell() {
    let mut rooms = relayed();
    rooms.set_downgrade_dwell(Duration::from_secs(7));
    leave(&mut rooms, 103, at(3));
    assert_eq!(rooms.poll_timeout(), Some(at(10)));
    rooms
        .admit_client(20, at(4), ROOM, 104, "token-104".to_string())
        .unwrap();
    assert_eq!(rooms.poll_timeout(), Some(at(14)));
    rooms.handle_timeout(at(11));
    assert_eq!(rooms.occupancy(ROOM), (3, RoomMode::Sfu));
}

#[test]
fn a_refused_leave_keeps_the_member() {
    let mut rooms = relayed();
    assert_eq!(
        rooms.remove(30, ROOM, 103, "token-103"),
        Ok(RemovalResult::Pending)
    );
    assert_eq!(
        rooms.remove(31, ROOM, 102, "token-102"),
        Err("ROOM_TRANSITION".to_string())
    );
    let (_, sent) = command(&mut rooms);
    answer(
        &mut rooms,
        9,
        "worker-1",
        sent.request_id,
        Err(error("BUSY")),
        at(0),
    )
    .unwrap();
    assert_eq!(
        drain(&mut rooms),
        vec![Action::RemovalCompleted {
            authority_request_id: 30,
            room_id: ROOM,
            client_id: 103,
            result: Err("BUSY".to_string()),
        }]
    );
    assert_eq!(rooms.occupancy(ROOM), (3, RoomMode::Sfu));
}

#[test]
fn a_refused_join_to_a_relayed_room() {
    let mut rooms = relayed();
    join_room(&mut rooms, 20, 104).unwrap();
    assert_eq!(rooms.occupancy(ROOM), (4, RoomMode::Sfu));
    let (_, sent) = command(&mut rooms);
    answer(
        &mut rooms,
        9,
        "worker-1",
        sent.request_id,
        Err(error("FULL")),
        at(0),
    )
    .unwrap();
    assert_eq!(
        drain(&mut rooms),
        vec![Action::AdmissionCompleted {
            authority_request_id: 20,
            result: Err("FULL".to_string()),
        }]
    );
    assert_eq!(rooms.occupancy(ROOM), (3, RoomMode::Sfu));
}

#[test]
fn relayed_messages_go_to_the_worker_and_come_from_it() {
    let mut rooms = relayed();
    assert_eq!(
        rooms.send(ROOM, 101, 1, "up".to_string()),
        Ok(SendResult::Sfu)
    );
    let (connection_id, sent) = command(&mut rooms);
    assert_eq!(connection_id, 9);
    let sfu::CommandKind::Signal(mut signal) = sent.command else {
        panic!("expected a signal");
    };
    assert_eq!(signal.message_json, "up");
    assert_eq!(signal.client_id, 101);
    assert_eq!(signal.sdp_request_id, None);
    answer(
        &mut rooms,
        9,
        "worker-1",
        sent.request_id,
        Ok(sfu::CommandOk::Acknowledged),
        at(0),
    )
    .unwrap();
    signal.message_json = "down".to_string();
    rooms
        .handle_sfu_input(sfu::Input::Event {
            connection_id: 9,
            instance_id: "worker-1".to_string(),
            event: sfu::Event {
                request_id: 50,
                event: sfu::EventKind::Signal(signal),
            },
        })
        .unwrap();
    assert_eq!(
        drain(&mut rooms),
        vec![
            Action::Deliver(Delivery {
                room_id: ROOM,
                client_id: 101,
                message: "down".to_string(),
            }),
            Action::Sfu(sfu::Output::EventAck {
                connection_id: 9,
                request_id: 50,
            }),
        ]
    );
}

fn signal(room_id: u64, client_id: u64, lifecycle_id: u64, assignment_epoch: u64) -> sfu::EventKind {
    sfu::EventKind::Signal(sfu::Signal {
        room_id,
        client_id,
        lifecycle_id,
        assignment_epoch,
        message_json: "m".to_string(),
        sdp_request_id: None,
    })
}

#[test]
fn stale_signals_of_a_worker_are_refused() {
    let mut rooms = relayed();
    for (request_id, event, expected) in [
        (50, signal(7, 101, 2, 1), "ROOM_NOT_FOUND"),
        (51, signal(ROOM, 109, 2, 1), "CLIENT_NOT_FOUND"),
        (52, signal(ROOM, 101, 1, 1), "STALE_ASSIGNMENT"),
        (53, signal(ROOM, 101, 2, 0), "STALE_ASSIGNMENT"),
    ] {
        assert_eq!(
            rooms.handle_sfu_input(sfu::Input::Event {
                connection_id: 9,
                instance_id: "worker-1".to_string(),
                event: sfu::Event { request_id, event },
            }),
            Err(expected.to_string())
        );
    }
    assert_eq!(drain(&mut rooms), vec![]);
}

#[test]
fn sessions_that_are_unknown_or_stale_change_nothing() {
    let mut rooms = relayed();
    assert_eq!(
        health(
            &mut rooms,
            9,
            "unknown",
            3,
            sfu::State::Ready,
            capacity(1, 1)
        ),
        Err("UNKNOWN_SFU".to_string())
    );
    assert_eq!(
        health(
            &mut rooms,
            8,
            "worker-1",
            3,
            sfu::State::Ready,
            capacity(1, 1)
        ),
        Err("STALE_SFU_SESSION".to_string())
    );
    assert_eq!(
        health(
            &mut rooms,
            9,
            "worker-1",
            0,
            sfu::State::Ready,
            capacity(1, 1)
        ),
        Err("STALE_SFU_SESSION".to_string())
    );
    let acknowledged = Ok(sfu::CommandOk::Acknowledged);
    assert_eq!(
        answer(&mut rooms, 9, "unknown", 1, acknowledged, at(0)),
        Err("UNKNOWN_SFU".to_string())
    );
    let acknowledged = Ok(sfu::CommandOk::Acknowledged);
    assert_eq!(
        answer(&mut rooms, 8, "worker-1", 1, acknowledged, at(0)),
        Err("STALE_SFU_SESSION".to_string())
    );
    rooms
        .handle_sfu_input(sfu::Input::Disconnected {
            connection_id: 8,
            instance_id: "worker-1".to_string(),
            now: at(0),
        })
        .unwrap();
    assert_eq!(rooms.connected_sfu_count(), 1);
    assert_eq!(drain(&mut rooms), vec![]);
}

#[test]
fn repeated_events_are_only_acknowledged() {
    let mut rooms = relayed();
    for _ in 0..2 {
        health(
            &mut rooms,
            9,
            "worker-1",
            60,
            sfu::State::Draining,
            capacity(10, 100),
        )
        .unwrap();
        assert_eq!(
            drain(&mut rooms),
            vec![Action::Sfu(sfu::Output::EventAck {
                connection_id: 9,
                request_id: 60,
            })]
        );
    }
    health(
        &mut rooms,
        9,
        "worker-1",
        61,
        sfu::State::Ready,
        capacity(10, 100),
    )
    .unwrap();
    health(
        &mut rooms,
        9,
        "worker-1",
        60,
        sfu::State::Draining,
        capacity(10, 100),
    )
    .unwrap();
    assert_eq!(rooms.ready_sfu_count(), 1);
}

#[test]
fn events_are_remembered_up_to_a_limit() {
    let mut rooms = new_table();
    ready_worker(&mut rooms, 9, "worker-1");
    let first: u64 = 100;
    let capacity_of_memory = EVENT_DEDUP_CAPACITY as u64;
    for request_id in first..first + capacity_of_memory {
        health(
            &mut rooms,
            9,
            "worker-1",
            request_id,
            sfu::State::Ready,
            capacity(10, 100),
        )
        .unwrap();
    }
    health(
        &mut rooms,
        9,
        "worker-1",
        first,
        sfu::State::Draining,
        capacity(10, 100),
    )
    .unwrap();
    assert_eq!(rooms.ready_sfu_count(), 1);
    health(
        &mut rooms,
        9,
        "worker-1",
        2,
        sfu::State::Draining,
        capacity(10, 100),
    )
    .unwrap();
    assert_eq!(rooms.ready_sfu_count(), 0);
}

#[test]
fn repeated_results_are_ignored() {
    let mut rooms = pair();
    ready_worker(&mut rooms, 9, "worker-1");
    drain(&mut rooms);
    join_room(&mut rooms, 12, 103).unwrap();
    let (_, sent) = command(&mut rooms);
    let sfu::CommandKind::Join(join) = sent.command else {
        panic!("expected a join");
    };
    for expected in [1, 0] {
        answer(
            &mut rooms,
            9,
            "worker-1",
            sent.request_id,
            Ok(sfu::CommandOk::MemberJoined(join)),
            at(0),
        )
        .unwrap();
        assert_eq!(drain(&mut rooms).len(), expected);
    }
    assert_eq!(rooms.occupancy(ROOM), (3, RoomMode::Upgrading));
}

#[test]
fn a_failure_that_names_a_room_fails_it() {
    let mut rooms = relayed();
    for (request_id, room_id) in [(70, None), (71, Some(7)), (72, Some(ROOM))] {
        rooms
            .handle_sfu_input(sfu::Input::Event {
                connection_id: 9,
                instance_id: "worker-1".to_string(),
                event: sfu::Event {
                    request_id,
                    event: sfu::EventKind::Failure {
                        error: error("MEDIA"),
                        room_id,
                        client_id: None,
                        lifecycle_id: None,
                        sdp_request_id: None,
                    },
                },
            })
            .unwrap();
    }
    assert_eq!(
        drain(&mut rooms),
        vec![
            Action::Sfu(sfu::Output::EventAck {
                connection_id: 9,
                request_id: 70,
            }),
            Action::Sfu(sfu::Output::EventAck {
                connection_id: 9,
                request_id: 71,
            }),
            Action::RoomFailed {
                room_id: ROOM,
                clients: vec![101, 102, 103],
                reason: "MEDIA".to_string(),
            },
            Action::Sfu(sfu::Output::EventAck {
                connection_id: 9,
                request_id: 72,
            }),
        ]
    );
    assert_eq!(rooms.occupancy(ROOM), (3, RoomMode::Failed));
    assert_eq!(
        rooms.send(ROOM, 101, 0, "m".to_string()),
        Ok(SendResult::Dropped)
    );
}

#[test]
fn a_registration_of_a_worker_is_checked() {
    let mut rooms = new_table();
    for (instance_id, request_id, limits) in [
        ("", 1, capacity(1, 1)),
        ("worker", 0, capacity(1, 1)),
        ("worker", 1, capacity(0, 1)),
        ("worker", 1, capacity(1, 0)),
    ] {
        rooms
            .handle_sfu_input(sfu::Input::Register {
                connection_id: 9,
                instance_id: instance_id.to_string(),
                request_id,
                capacity: limits,
            })
            .unwrap();
        assert_eq!(
            drain(&mut rooms),
            vec![Action::Sfu(sfu::Output::RegistrationError {
                connection_id: 9,
                request_id,
                error: error("INVALID_REQUEST"),
            })]
        );
    }
    assert_eq!(rooms.connected_sfu_count(), 0);
}

#[test]
fn a_worker_that_registers_again_replaces_its_connection() {
    let mut rooms = new_table();
    register_worker(&mut rooms, 8, "worker-1", 5);
    register_worker(&mut rooms, 9, "worker-1", 6);
    assert_eq!(
        drain(&mut rooms),
        vec![
            Action::Sfu(sfu::Output::Registered {
                connection_id: 8,
                request_id: 5,
                health_interval_ms: HEALTH_INTERVAL_MS,
                resumed: false,
            }),
            Action::Sfu(sfu::Output::Close { connection_id: 8 }),
            Action::Sfu(sfu::Output::Registered {
                connection_id: 9,
                request_id: 6,
                health_interval_ms: HEALTH_INTERVAL_MS,
                resumed: true,
            }),
        ]
    );
    assert_eq!(rooms.connected_sfu_count(), 1);
}

#[test]
fn a_worker_that_comes_back_is_synchronized_and_replayed() {
    let mut rooms = relayed();
    rooms.send(ROOM, 101, 1, "one".to_string()).unwrap();
    rooms.send(ROOM, 102, 1, "two".to_string()).unwrap();
    let (_, one) = command(&mut rooms);
    let (_, two) = command(&mut rooms);
    rooms
        .handle_sfu_input(sfu::Input::Disconnected {
            connection_id: 9,
            instance_id: "worker-1".to_string(),
            now: at(0),
        })
        .unwrap();
    assert_eq!(rooms.poll_timeout(), Some(at(10)));
    register_worker(&mut rooms, 10, "worker-1", 7);
    assert_eq!(rooms.poll_timeout(), None);
    assert!(matches!(
        rooms.poll_action(),
        Some(Action::Sfu(sfu::Output::Registered { resumed: true, .. }))
    ));
    let (connection_id, sync) = command(&mut rooms);
    assert_eq!(connection_id, 10);
    let sfu::CommandKind::SyncRoom(state) = sync.command else {
        panic!("expected a synchronization");
    };
    assert_eq!(state.room_id, ROOM);
    let clients: Vec<u64> = state.members.iter().map(|m| m.client_id).collect();
    assert_eq!(clients, vec![101, 102, 103]);
    assert_eq!(drain(&mut rooms), vec![]);
    answer(
        &mut rooms,
        10,
        "worker-1",
        sync.request_id,
        Ok(sfu::CommandOk::RoomSynced(sfu::RoomSynced {
            room_id: ROOM,
            assignment_epoch: state.assignment_epoch,
        })),
        at(0),
    )
    .unwrap();
    assert_eq!(
        drain(&mut rooms),
        vec![
            Action::Sfu(sfu::Output::Command {
                connection_id: 10,
                command: one,
            }),
            Action::Sfu(sfu::Output::Command {
                connection_id: 10,
                command: two,
            }),
        ]
    );
    assert_eq!(rooms.occupancy(ROOM), (3, RoomMode::Sfu));
}

#[test]
fn a_refused_synchronization_fails_the_room() {
    let mut rooms = relayed();
    register_worker(&mut rooms, 10, "worker-1", 7);
    assert_eq!(drain(&mut rooms).len(), 3);
    let mut rooms = relayed();
    rooms
        .handle_sfu_input(sfu::Input::Disconnected {
            connection_id: 9,
            instance_id: "worker-1".to_string(),
            now: at(0),
        })
        .unwrap();
    register_worker(&mut rooms, 10, "worker-1", 7);
    rooms.poll_action();
    let (_, sync) = command(&mut rooms);
    answer(
        &mut rooms,
        10,
        "worker-1",
        sync.request_id,
        Err(error("LOST")),
        at(0),
    )
    .unwrap();
    assert_eq!(
        drain(&mut rooms),
        vec![Action::RoomFailed {
            room_id: ROOM,
            clients: vec![101, 102, 103],
            reason: "WORKER_UNAVAILABLE".to_string(),
        }]
    );
}

#[test]
fn a_worker_that_stays_away_loses_its_rooms() {
    let mut rooms = relayed();
    rooms
        .handle_sfu_input(sfu::Input::Disconnected {
            connection_id: 9,
            instance_id: "worker-1".to_string(),
            now: at(0),
        })
        .unwrap();
    assert_eq!(rooms.handle_timeout(at(9)), vec![]);
    assert_eq!(rooms.occupancy(ROOM), (3, RoomMode::Sfu));
    assert_eq!(rooms.handle_timeout(at(10)), vec![]);
    assert_eq!(rooms.occupancy(ROOM), (3, RoomMode::Failed));
    assert_eq!(
        drain(&mut rooms),
        vec![Action::RoomFailed {
            room_id: ROOM,
            clients: vec![101, 102, 103],
            reason: "WORKER_UNAVAILABLE".to_string(),
        }]
    );
}

#[test]
fn a_worker_that_stays_away_ends_the_upgrade() {
    let mut rooms = pair();
    ready_worker(&mut rooms, 9, "worker-1");
    drain(&mut rooms);
    join_room(&mut rooms, 12, 103).unwrap();
    drain(&mut rooms);
    rooms
        .handle_sfu_input(sfu::Input::Disconnected {
            connection_id: 9,
            instance_id: "worker-1".to_string(),
            now: at(0),
        })
        .unwrap();
    assert_eq!(rooms.handle_timeout(at(10)), vec![]);
    assert_eq!(rooms.occupancy(ROOM), (2, RoomMode::P2p));
    assert_eq!(
        drain(&mut rooms),
        vec![Action::AdmissionCompleted {
            authority_request_id: 12,
            result: Err("WORKER_UNAVAILABLE".to_string()),
        }]
    );
}

#[test]
fn an_absent_worker_leaves_the_grace_to_its_members() {
    let mut rooms = relayed();
    rooms
        .handle_sfu_input(sfu::Input::Disconnected {
            connection_id: 9,
            instance_id: "worker-1".to_string(),
            now: at(5),
        })
        .unwrap();
    rooms.deregister(at(3), ROOM, 103);
    assert_eq!(drain(&mut rooms), vec![]);
    assert_eq!(rooms.poll_timeout(), Some(at(13)));
    rooms.handle_timeout(at(13));
    assert_eq!(rooms.occupancy(ROOM), (3, RoomMode::Sfu));
    assert_eq!(rooms.poll_timeout(), Some(at(15)));
}

#[test]
fn each_stay_of_a_client_has_its_own_number() {
    let mut rooms = new_table();
    ready_worker(&mut rooms, 9, "worker-1");
    for _ in 0..2 {
        for client_id in [101, 102, 103] {
            let _ = join_room(&mut rooms, client_id, client_id);
        }
        let last = drain(&mut rooms).pop().unwrap();
        let Action::Sfu(sfu::Output::Command { command, .. }) = last else {
            panic!("expected a command");
        };
        answer(
            &mut rooms,
            9,
            "worker-1",
            command.request_id,
            Err(error("FULL")),
            at(0),
        )
        .unwrap();
        for client_id in [101, 102] {
            rooms
                .remove(1, ROOM, client_id, &format!("token-{client_id}"))
                .unwrap();
        }
        drain(&mut rooms);
    }
    for client_id in [101, 102, 103] {
        let _ = join_room(&mut rooms, client_id, client_id);
    }
    let (_, sent) = command(&mut rooms);
    let sfu::CommandKind::Join(join) = sent.command else {
        panic!("expected a join");
    };
    assert_eq!(join.client_id, 101);
    assert_eq!(join.lifecycle_id, 6);
}

#[test]
fn counts_and_clearing() {
    let mut rooms = relayed();
    rooms
        .admit_client(1, at(0), 7, 1, "t".to_string())
        .unwrap();
    assert_eq!(rooms.room_count(), 2);
    assert_eq!(rooms.member_count(), 4);
    assert_eq!(rooms.registered_count(), 3);
    rooms.clear();
    assert_eq!(rooms.room_count(), 0);
    assert_eq!(rooms.member_count(), 0);
    assert_eq!(rooms.connected_sfu_count(), 0);
    assert_eq!(rooms.poll_timeout(), None);
    assert_eq!(rooms.poll_action(), None);
}
