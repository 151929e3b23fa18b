//! What workers do to rooms, and what they are told.

use super::dwell;
use super::members::is_connected;
use super::news;
use super::upgrades::result_input;
use crate::room::laws::clients::at_most;
use crate::seqs::Text;
use crate::sfu;
use crate::sfu::{
    Capacity, CommandKindView, CommandOk, CommandView, ErrorView, EventKindView, EventView,
    InputView, OutputView, SignalView,
};
use crate::time::Instant;
use crate::v2::model::{Member, Pending, Room, Table, Worker};
use crate::v2::{
    model, ActionView, AdmissionView, DeliveryView, Promotion, RoomMode, DOWNGRADE_DWELL_NANOS,
    EVENT_DEDUP_CAPACITY, HEALTH_INTERVAL_MS, MAX_P2P_MEMBERS, MAX_QUEUED_MESSAGES,
};
use vstd::prelude::*;

verus! {

/// The limits: two direct members, so many queued messages, so many remembered events, a
/// health report every half minute, and two seconds before a small room goes back.
pub proof fn law_limits()
    ensures
        MAX_P2P_MEMBERS == 2,
        MAX_QUEUED_MESSAGES == 1024,
        EVENT_DEDUP_CAPACITY == 4096,
        HEALTH_INTERVAL_MS == 30_000,
        DOWNGRADE_DWELL_NANOS == 2_000_000_000,
{
}

/// Why a worker that did not do what it was asked did not: its own reason, or that its
/// answer does not fit.
pub open spec fn reason_of(result: Result<CommandOk, ErrorView>) -> Text {
    match result {
        Ok(_) => "INVALID_COMMAND_RESULT"@,
        Err(error) => error.reason,
    }
}

/// The table in which a command is no longer waited for.
pub open spec fn without_command(t: Table, id: u64) -> Table {
    Table {
        pending_commands: t.pending_commands.remove(id),
        unacknowledged_commands: t.unacknowledged_commands.remove(id),
        command_workers: t.command_workers.remove(id),
        ..t
    }
}

// Registration

/// A worker that does not say who it is, under which number it asks or what it can take is
/// refused, for good; nothing else changes.
pub proof fn law_worker_registration_is_refused(
    t: Table,
    connection_id: u64,
    instance_id: Text,
    request_id: u64,
    capacity: Capacity,
)
    requires
        instance_id.len() == 0 || request_id == 0 || capacity.max_rooms == 0
            || capacity.max_clients == 0,
    ensures
        t.handle_sfu_input(
            InputView::Register { connection_id, instance_id, request_id, capacity },
        ) == (
            Table {
                actions: t.actions.push(
                    ActionView::Sfu(
                        OutputView::RegistrationError {
                            connection_id,
                            request_id,
                            error: ErrorView { reason: "INVALID_REQUEST"@, retryable: false },
                        },
                    ),
                ),
                ..t
            },
            Ok::<(), Text>(()),
        ),
{
}

/// A new worker has no rooms, no clients and no health yet, and has sent nothing; it is told
/// that it is registered, that it was not known, and how often to report.
pub proof fn law_new_worker_is_registered(
    t: Table,
    connection_id: u64,
    instance_id: Text,
    request_id: u64,
    capacity: Capacity,
)
    requires
        !t.workers.contains_key(instance_id),
        instance_id.len() > 0,
        request_id != 0,
        capacity.max_rooms != 0,
        capacity.max_clients != 0,
    ensures
        ({
            let (u, result) = t.handle_sfu_input(
                InputView::Register { connection_id, instance_id, request_id, capacity },
            );
            &&& result is Ok
            &&& u.rooms == t.rooms
            &&& u.workers == t.workers.insert(
                instance_id,
                Worker {
                    connection_id: Some(connection_id),
                    capacity,
                    health: None,
                    assigned_rooms: Set::empty(),
                    assigned_clients: 0,
                    seen_events: Set::empty(),
                    seen_event_order: Seq::empty(),
                    disconnect_deadline: None,
                },
            )
            &&& u.actions == t.actions.push(
                ActionView::Sfu(
                    OutputView::Registered {
                        connection_id,
                        request_id,
                        health_interval_ms: 30_000,
                        resumed: false,
                    },
                ),
            )
        }),
{
    let none = Set::<u64>::empty();
    crate::ord_map::lemma_in_order::<u64>(none);
    assert(crate::ord_map::in_order::<u64>(none).len() == 0) by {
        let q = crate::ord_map::in_order::<u64>(none);
        if q.len() > 0 {
            assert(q.contains(q[0]));
        }
    }
}

/// A known worker that registers again keeps its rooms, its clients and what it sent; it is
/// connected under the new connection, with the new capacity and no health. The connection
/// that this replaces is closed first, and then the worker is told that it was known.
pub proof fn law_known_worker_is_resumed(
    t: Table,
    connection_id: u64,
    instance_id: Text,
    request_id: u64,
    capacity: Capacity,
)
    requires
        t.workers.contains_key(instance_id),
        instance_id.len() > 0,
        request_id != 0,
        capacity.max_rooms != 0,
        capacity.max_clients != 0,
    ensures
        ({
            let worker = t.workers[instance_id];
            let (u, result) = t.handle_sfu_input(
                InputView::Register { connection_id, instance_id, request_id, capacity },
            );
            let replaced = worker.connection_id is Some && worker.connection_id != Some(
                connection_id,
            );
            let first = t.actions.len() as int;
            let told = ActionView::Sfu(
                OutputView::Registered {
                    connection_id,
                    request_id,
                    health_interval_ms: 30_000,
                    resumed: true,
                },
            );
            &&& result is Ok
            &&& u.rooms == t.rooms
            &&& u.workers == t.workers.insert(
                instance_id,
                Worker {
                    connection_id: Some(connection_id),
                    capacity,
                    health: None,
                    disconnect_deadline: None,
                    ..worker
                },
            )
            &&& t.actions.is_prefix_of(u.actions)
            &&& if replaced {
                &&& u.actions.len() >= first + 2
                &&& u.actions[first] == ActionView::Sfu(
                    OutputView::Close { connection_id: worker.connection_id->0 },
                )
                &&& u.actions[first + 1] == told
            } else {
                u.actions.len() >= first + 1 && u.actions[first] == told
            }
        }),
{
    let base = t.worker_connected(
        connection_id,
        instance_id,
        request_id,
        capacity,
    ).without_syncs(instance_id);
    let rooms = crate::ord_map::in_order::<u64>(base.workers[instance_id].assigned_rooms);
    super::upgrades::lemma_sync_rooms_keeps_rooms(base, instance_id, connection_id, rooms);
    news::lemma_sync_rooms(base, instance_id, connection_id, rooms, 0);
    let u = base.sync_rooms(instance_id, connection_id, rooms);
    assert(base.actions.is_prefix_of(u.actions));
    assert forall|i: int| 0 <= i < base.actions.len() implies base.actions[i]
        == u.actions[i] by {}
}

/// A worker whose connection is lost is not connected and not healthy, and has the grace to
/// come back; all else that is known of it stays. Another connection than its own does not
/// matter.
pub proof fn law_worker_loss_is_waited_out(
    t: Table,
    connection_id: u64,
    instance_id: Text,
    now: Instant,
)
    ensures
        t.handle_sfu_input(InputView::Disconnected { connection_id, instance_id, now }) == (
            if is_connected(t, instance_id, connection_id) {
                Table {
                    workers: t.workers.insert(
                        instance_id,
                        Worker {
                            connection_id: None,
                            health: None,
                            disconnect_deadline: Some(at_most(now, t.reconnect_grace)),
                            ..t.workers[instance_id]
                        },
                    ),
                    ..t
                }
            } else {
                t
            },
            Ok::<(), Text>(()),
        ),
{
}

// Results

/// A result that nobody waits for changes nothing. One of an unknown worker, or on another
/// connection than the current one, is an error, and changes nothing either.
pub proof fn law_result_is_checked(
    t: Table,
    connection_id: u64,
    instance_id: Text,
    request_id: u64,
    result: Result<CommandOk, ErrorView>,
    now: Instant,
)
    ensures
        ({
            let (u, answer) = t.handle_sfu_input(
                result_input(connection_id, instance_id, request_id, result, now),
            );
            let known = t.workers.contains_key(instance_id);
            let current = is_connected(t, instance_id, connection_id);
            &&& !known ==> u == t && answer == Err::<(), Text>("UNKNOWN_SFU"@)
            &&& known && !current ==> u == t && answer == Err::<(), Text>("STALE_SFU_SESSION"@)
            &&& current && !t.pending_commands.contains_key(request_id) ==> u == t && answer
                == Ok::<(), Text>(())
        }),
{
}

/// The result of a signal, or of a leave that nobody waits for, is taken note of.
pub proof fn law_plain_result_is_taken_note_of(
    t: Table,
    connection_id: u64,
    instance_id: Text,
    request_id: u64,
    result: Result<CommandOk, ErrorView>,
    now: Instant,
)
    requires
        is_connected(t, instance_id, connection_id),
        t.pending_commands.contains_key(request_id),
        t.pending_commands[request_id] is Signal || t.pending_commands[request_id] is Cleanup,
    ensures
        t.handle_sfu_input(
            result_input(connection_id, instance_id, request_id, result, now),
        ) == (without_command(t, request_id), Ok::<(), Text>(())),
{
}

/// A member that its worker has taken is admitted under the epoch of the room and with the
/// token that it was given; the worker has one client more. The members stay as they were,
/// and the room waits for nobody.
pub proof fn law_taken_member_is_admitted(
    t: Table,
    connection_id: u64,
    instance_id: Text,
    request_id: u64,
    join: sfu::JoinMember,
    now: Instant,
)
    requires
        is_connected(t, instance_id, connection_id),
        t.pending_commands.contains_key(request_id),
        t.pending_commands[request_id] == (Pending::SfuJoin { instance_id, join }),
        t.rooms.contains_key(join.room_id),
        t.rooms[join.room_id].pending_join is Some,
        t.rooms[join.room_id].members.contains_key(join.client_id),
        t.workers[instance_id].assigned_clients < usize::MAX,
    ensures
        ({
            let room = t.rooms[join.room_id];
            let worker = t.workers[instance_id];
            let (u, answer) = t.handle_sfu_input(
                result_input(
                    connection_id,
                    instance_id,
                    request_id,
                    Ok(CommandOk::MemberJoined(join)),
                    now,
                ),
            );
            let after = u.rooms[join.room_id];
            &&& answer is Ok
            &&& u == (Table {
                rooms: t.rooms.insert(join.room_id, after),
                workers: t.workers.insert(
                    instance_id,
                    Worker { assigned_clients: (worker.assigned_clients + 1) as usize, ..worker },
                ),
                actions: t.actions.push(
                    ActionView::AdmissionCompleted {
                        authority_request_id: room.pending_join->0.authority_request_id,
                        result: Ok(
                            AdmissionView {
                                mode: RoomMode::Sfu,
                                signal_epoch: room.signal_epoch,
                                admission_token: room.members[join.client_id].token,
                                is_initiator: None,
                            },
                        ),
                    },
                ),
                ..without_command(t, request_id)
            })
            &&& after == (Room {
                pending_join: None,
                downgrade_deadline: after.downgrade_deadline,
                ..room
            })
        }),
{
}

/// A member that its worker has not taken, or has answered for otherwise, is out of the
/// room, and is refused for the reason of the worker; the others stay as they were.
pub proof fn law_untaken_member_is_refused(
    t: Table,
    connection_id: u64,
    instance_id: Text,
    request_id: u64,
    expected: Text,
    join: sfu::JoinMember,
    result: Result<CommandOk, ErrorView>,
    now: Instant,
)
    requires
        is_connected(t, instance_id, connection_id),
        t.pending_commands.contains_key(request_id),
        t.pending_commands[request_id] == (Pending::SfuJoin { instance_id: expected, join }),
        t.rooms.contains_key(join.room_id),
        t.rooms[join.room_id].pending_join is Some,
        expected != instance_id || result != Ok::<CommandOk, ErrorView>(
            CommandOk::MemberJoined(join),
        ),
    ensures
        ({
            let room = t.rooms[join.room_id];
            let waiting = room.pending_join->0;
            let (u, answer) = t.handle_sfu_input(
                result_input(connection_id, instance_id, request_id, result, now),
            );
            let after = u.rooms[join.room_id];
            &&& answer is Ok
            &&& u == (Table {
                rooms: t.rooms.insert(join.room_id, after),
                actions: t.actions.push(
                    ActionView::AdmissionCompleted {
                        authority_request_id: waiting.authority_request_id,
                        result: Err(reason_of(result)),
                    },
                ),
                ..without_command(t, request_id)
            })
            &&& after == (Room {
                members: room.members.remove(waiting.client_id),
                pending_join: None,
                downgrade_deadline: after.downgrade_deadline,
                ..room
            })
        }),
{
}

/// What a room server that asked for a leave is answered.
pub open spec fn answers(
    request: Option<u64>,
    room_id: u64,
    client_id: u64,
    result: Result<(), Text>,
) -> Seq<ActionView> {
    match request {
        Some(authority_request_id) => seq![
            ActionView::RemovalCompleted { authority_request_id, room_id, client_id, result },
        ],
        None => Seq::empty(),
    }
}

/// A member that has left its worker is out of the room, and the worker has one client
/// less; whoever asked for it is told first. With the last member the room is gone, also at
/// the worker. The one that is left of two in an SFU room offers, without what it had
/// queued, and is promoted if it is connected; all others stay as they were.
#[verifier::rlimit(40)]
pub proof fn law_left_member_is_removed(
    t: Table,
    connection_id: u64,
    instance_id: Text,
    request_id: u64,
    left: sfu::LeaveMember,
    now: Instant,
)
    requires
        t.inv(),
        dwell::awaits_leave(t, connection_id, instance_id, request_id, left),
    ensures
        ({
            let room_id = left.room_id;
            let room = t.rooms[room_id];
            let worker = t.workers[instance_id];
            let (u, answer) = t.handle_sfu_input(
                result_input(
                    connection_id,
                    instance_id,
                    request_id,
                    Ok(CommandOk::MemberLeft(left)),
                    now,
                ),
            );
            let after = u.rooms[room_id];
            let last = room.members.dom().len() == 1;
            let told = t.actions + answers(
                room.pending_leave->0.authority_request_id,
                room_id,
                left.client_id,
                Ok(()),
            );
            &&& answer is Ok
            &&& u.workers == t.workers.insert(
                instance_id,
                Worker {
                    assigned_rooms: if last {
                        worker.assigned_rooms.remove(room_id)
                    } else {
                        worker.assigned_rooms
                    },
                    assigned_clients: if worker.assigned_clients > 0 {
                        (worker.assigned_clients - 1) as usize
                    } else {
                        0
                    },
                    ..worker
                },
            )
            &&& u.pending_commands == t.pending_commands.remove(request_id)
            &&& u.lifecycle_ids == t.lifecycle_ids
            &&& last ==> u.rooms == t.rooms.remove(room_id) && u.actions == told
            &&& !last ==> {
                &&& u.rooms == t.rooms.insert(room_id, after)
                &&& after == (Room {
                    members: after.members,
                    pending_leave: None,
                    downgrade_deadline: after.downgrade_deadline,
                    ..room
                })
                &&& after.members.dom() == room.members.dom().remove(left.client_id)
            }
            &&& room.members.dom().len() > 2 || !last && room.mode == RoomMode::Failed
                ==> u.actions == told && forall|c: u64| #[trigger]
                after.members.contains_key(c) ==> after.members[c] == room.members[c]
            &&& room.members.dom().len() == 2 && room.mode == RoomMode::Sfu ==> forall|c: u64|
             #[trigger]
                after.members.contains_key(c) ==> {
                    &&& after.members[c] == (Member {
                        is_initiator: true,
                        queued_messages: Seq::empty(),
                        ..room.members[c]
                    })
                    &&& u.actions == (if room.members[c].registered {
                        told.push(
                            ActionView::Promoted(
                                Promotion {
                                    room_id,
                                    client_id: c,
                                    signal_epoch: room.signal_epoch,
                                },
                            ),
                        )
                    } else {
                        told
                    })
                }
        }),
{
    let room_id = left.room_id;
    let before = t.rooms[room_id];
    let room = Room { pending_leave: None, ..before };
    let stays = room.without_member(left.client_id);
    assert(stays.members.dom() =~= before.members.dom().remove(left.client_id));
    news::lemma_clients(stays);
    let u = t.handle_sfu_input(
        result_input(
            connection_id,
            instance_id,
            request_id,
            Ok(CommandOk::MemberLeft(left)),
            now,
        ),
    ).0;
    if stays.members.dom().len() == 1 && before.mode == RoomMode::Failed {
        assert(u.actions =~= t.actions + answers(
            before.pending_leave->0.authority_request_id,
            room_id,
            left.client_id,
            Ok(()),
        ));
    } else if stays.members.dom().len() == 1 {
        let c = stays.clients()[0];
        assert(stays.clients().contains(c));
        assert(stays.promoted().members.dom() =~= stays.members.dom());
        assert forall|d: u64| #[trigger] stays.members.contains_key(d) implies d == c by {
            assert(stays.clients().contains(d));
        }
        assert forall|d: u64| #[trigger] u.rooms[room_id].members.contains_key(d) implies d
            == c by {
            assert(stays.members.dom().contains(d));
            assert(stays.members.contains_key(d));
        }
        let told = t.actions + answers(
            before.pending_leave->0.authority_request_id,
            room_id,
            left.client_id,
            Ok(()),
        );
        assert(u.actions =~= if before.members[c].registered {
            told.push(
                ActionView::Promoted(
                    Promotion { room_id, client_id: c, signal_epoch: before.signal_epoch },
                ),
            )
        } else {
            told
        });
    } else if stays.members.dom().len() > 1 {
        assert(u.actions =~= t.actions + answers(
            before.pending_leave->0.authority_request_id,
            room_id,
            left.client_id,
            Ok(()),
        ) + Seq::empty());
    } else {
        assert(u.rooms =~= t.rooms.remove(room_id));
    }
}

/// A member whose leave was refused, or answered otherwise than it was asked, stays as it
/// was, and whoever asked is told why.
pub proof fn law_refused_leave_keeps_the_member(
    t: Table,
    connection_id: u64,
    instance_id: Text,
    request_id: u64,
    left: sfu::LeaveMember,
    result: Result<CommandOk, ErrorView>,
    now: Instant,
)
    requires
        dwell::awaits_leave(t, connection_id, instance_id, request_id, left),
        match result {
            Ok(CommandOk::MemberLeft(other)) => other.room_id != left.room_id || other.client_id
                != left.client_id || other.lifecycle_id != left.lifecycle_id
                || other.assignment_epoch != left.assignment_epoch,
            _ => true,
        },
    ensures
        ({
            let room_id = left.room_id;
            let room = t.rooms[room_id];
            let (u, answer) = t.handle_sfu_input(
                result_input(connection_id, instance_id, request_id, result, now),
            );
            let after = u.rooms[room_id];
            &&& answer is Ok
            &&& u == (Table {
                rooms: t.rooms.insert(room_id, after),
                actions: t.actions + answers(
                    room.pending_leave->0.authority_request_id,
                    room_id,
                    left.client_id,
                    Err(reason_of(result)),
                ),
                ..without_command(t, request_id)
            })
            &&& after == (Room {
                pending_leave: None,
                downgrade_deadline: after.downgrade_deadline,
                ..room
            })
        }),
{
}

/// A worker that answers a synchronization otherwise than it was asked, or that was not the
/// one that was asked, has lost the room as well: it has failed, all its members are told,
/// and nothing is sent again.
pub proof fn law_wrong_synchronization_fails_the_room(
    t: Table,
    connection_id: u64,
    instance_id: Text,
    request_id: u64,
    expected: Text,
    room_id: u64,
    assignment_epoch: u64,
    replay: Seq<CommandView>,
    result: Result<CommandOk, ErrorView>,
    now: Instant,
)
    requires
        t.inv(),
        is_connected(t, instance_id, connection_id),
        t.rooms.contains_key(room_id),
        t.pending_commands.contains_key(request_id),
        t.pending_commands[request_id] == (Pending::SyncRoom {
            instance_id: expected,
            room_id,
            assignment_epoch,
            replay,
        }),
        expected != instance_id || match result {
            Ok(CommandOk::RoomSynced(synced)) => synced.room_id != room_id
                || synced.assignment_epoch != assignment_epoch,
            _ => true,
        },
    ensures
        ({
            let room = t.rooms[room_id];
            let (u, answer) = t.handle_sfu_input(
                result_input(connection_id, instance_id, request_id, result, now),
            );
            &&& answer is Ok
            &&& u.rooms == t.rooms.insert(room_id, Room { mode: RoomMode::Failed, ..room })
            &&& u.workers == t.workers
            &&& u.pending_commands == t.pending_commands.remove(request_id)
            &&& u.actions.len() == t.actions.len() + 1
            &&& t.actions.is_prefix_of(u.actions)
            &&& u.actions.last() matches ActionView::RoomFailed { room_id: r, clients, reason }
            &&& r == room_id
            &&& reason == "WORKER_UNAVAILABLE"@
            &&& clients.no_duplicates()
            &&& forall|c: u64| #[trigger] clients.contains(c) <==> room.members.contains_key(c)
        }),
{
    news::lemma_clients(t.rooms[room_id]);
}

/// A result for a room that is gone, or that does not wait for it any more, is an error;
/// the command is forgotten and nothing else changes.
pub proof fn law_result_needs_its_room(
    t: Table,
    connection_id: u64,
    instance_id: Text,
    request_id: u64,
    result: Result<CommandOk, ErrorView>,
    now: Instant,
)
    requires
        is_connected(t, instance_id, connection_id),
        t.pending_commands.contains_key(request_id),
    ensures
        ({
            let (u, answer) = t.handle_sfu_input(
                result_input(connection_id, instance_id, request_id, result, now),
            );
            let gone = u == without_command(t, request_id) && answer == Err::<(), Text>(
                "ROOM_NOT_FOUND"@,
            );
            let late = u == without_command(t, request_id) && answer == Err::<(), Text>(
                "ROOM_TRANSITION"@,
            );
            match t.pending_commands[request_id] {
                Pending::UpgradeJoin { join, .. } => {
                    &&& !t.rooms.contains_key(join.room_id) ==> gone
                    &&& t.rooms.contains_key(join.room_id) && t.rooms[join.room_id].upgrade is None
                        ==> late
                },
                Pending::SfuJoin { join, .. } => {
                    &&& !t.rooms.contains_key(join.room_id) ==> gone
                    &&& t.rooms.contains_key(join.room_id)
                        && t.rooms[join.room_id].pending_join is None ==> late
                },
                Pending::SfuLeave { room_id, .. } => {
                    &&& !t.rooms.contains_key(room_id) ==> gone
                    &&& t.rooms.contains_key(room_id) && t.rooms[room_id].pending_leave is None
                        ==> late
                },
                Pending::SyncRoom { instance_id: i, room_id, .. } => {
                    i != instance_id && !t.rooms.contains_key(room_id) ==> u == without_command(
                        t,
                        request_id,
                    ) && answer is Ok
                },
                _ => true,
            }
        }),
{
}

// Events

/// The state in which an event of a worker is remembered.
pub open spec fn remembers_only(before: Worker, after: Worker, request_id: u64) -> bool {
    &&& after == (Worker {
        seen_events: after.seen_events,
        seen_event_order: after.seen_event_order,
        capacity: after.capacity,
        health: after.health,
        ..before
    })
    &&& after.seen_events.contains(request_id)
}

proof fn lemma_remembers(worker: Worker, request_id: u64)
    requires
        worker.inv(),
        !worker.seen_events.contains(request_id),
    ensures
        remembers_only(worker, worker.after_event(request_id), request_id),
        worker.after_event(request_id).capacity == worker.capacity,
        worker.after_event(request_id).health == worker.health,
{
    let order = worker.seen_event_order;
    if order.push(request_id).len() > EVENT_DEDUP_CAPACITY {
        assert(order.push(request_id)[0] == order[0]);
        assert(order.contains(order[0]));
    }
}

/// A health report is what is known of the capacity and the state of the worker from then
/// on, and is acknowledged.
pub proof fn law_health_is_taken_over(
    t: Table,
    connection_id: u64,
    instance_id: Text,
    request_id: u64,
    health: sfu::Health,
)
    requires
        t.inv(),
        is_connected(t, instance_id, connection_id),
        request_id != 0,
        !t.workers[instance_id].seen_events.contains(request_id),
    ensures
        ({
            let (u, answer) = t.handle_sfu_input(
                InputView::Event {
                    connection_id,
                    instance_id,
                    event: EventView { request_id, event: EventKindView::Health(health) },
                },
            );
            let after = u.workers[instance_id];
            &&& answer is Ok
            &&& u == (Table {
                workers: t.workers.insert(instance_id, after),
                actions: t.actions.push(
                    ActionView::Sfu(OutputView::EventAck { connection_id, request_id }),
                ),
                ..t
            })
            &&& after.health == Some(health)
            &&& after.capacity == health.capacity
            &&& remembers_only(t.workers[instance_id], after, request_id)
        }),
{
    lemma_remembers(t.workers[instance_id], request_id);
    let u = t.handle_sfu_input(
        InputView::Event {
            connection_id,
            instance_id,
            event: EventView { request_id, event: EventKindView::Health(health) },
        },
    ).0;
    assert(u.workers =~= t.workers.insert(instance_id, u.workers[instance_id]));
}

/// A signal of a worker is delivered whole to the member that it is for, if the room runs
/// on that worker and the numbers of the stay and of the assignment are the current ones,
/// and is then acknowledged. Otherwise the driver is told why, and nobody hears of it.
pub proof fn law_signal_is_delivered_to_its_member(
    t: Table,
    connection_id: u64,
    instance_id: Text,
    request_id: u64,
    signal: SignalView,
)
    requires
        t.inv(),
        is_connected(t, instance_id, connection_id),
        request_id != 0,
        !t.workers[instance_id].seen_events.contains(request_id),
    ensures
        ({
            let room = t.rooms[signal.room_id];
            let member = room.members[signal.client_id];
            let (u, answer) = t.handle_sfu_input(
                InputView::Event {
                    connection_id,
                    instance_id,
                    event: EventView { request_id, event: EventKindView::Signal(signal) },
                },
            );
            let after = u.workers[instance_id];
            let known = t.rooms.contains_key(signal.room_id);
            let there = known && room.members.contains_key(signal.client_id);
            let current = there && room.mode == RoomMode::Sfu && room.assigned_instance == Some(
                instance_id,
            ) && room.assignment_epoch == signal.assignment_epoch && member.lifecycle_id
                == signal.lifecycle_id;
            &&& u == (Table {
                workers: t.workers.insert(instance_id, after),
                actions: u.actions,
                ..t
            })
            &&& after.health == t.workers[instance_id].health
            &&& after.capacity == t.workers[instance_id].capacity
            &&& remembers_only(t.workers[instance_id], after, request_id)
            &&& if current {
                &&& answer is Ok
                &&& u.actions == t.actions.push(
                    ActionView::Deliver(
                        DeliveryView {
                            room_id: signal.room_id,
                            client_id: signal.client_id,
                            message: signal.message_json,
                        },
                    ),
                ).push(ActionView::Sfu(OutputView::EventAck { connection_id, request_id }))
            } else {
                &&& u.actions == t.actions
                &&& answer == Err::<(), Text>(
                    if !known {
                        "ROOM_NOT_FOUND"@
                    } else if !there {
                        "CLIENT_NOT_FOUND"@
                    } else {
                        "STALE_ASSIGNMENT"@
                    },
                )
            }
        }),
{
    lemma_remembers(t.workers[instance_id], request_id);
}

/// A failure that a worker reports of a room fails it, with the reason of the worker, which
/// all members are told; a failure of anything else fails no room. Either is acknowledged.
pub proof fn law_reported_failure_fails_the_room(
    t: Table,
    connection_id: u64,
    instance_id: Text,
    request_id: u64,
    event: EventKindView,
)
    requires
        t.inv(),
        is_connected(t, instance_id, connection_id),
        request_id != 0,
        !t.workers[instance_id].seen_events.contains(request_id),
        event is Failure,
    ensures
        ({
            let named = event->Failure_room_id;
            let room_id = named->0;
            let room = t.rooms[room_id];
            let (u, answer) = t.handle_sfu_input(
                InputView::Event {
                    connection_id,
                    instance_id,
                    event: EventView { request_id, event },
                },
            );
            let after = u.workers[instance_id];
            let ack = ActionView::Sfu(OutputView::EventAck { connection_id, request_id });
            &&& answer is Ok
            &&& u == (Table {
                rooms: u.rooms,
                workers: t.workers.insert(instance_id, after),
                actions: u.actions,
                ..t
            })
            &&& remembers_only(t.workers[instance_id], after, request_id)
            &&& if named is Some && t.rooms.contains_key(room_id) {
                &&& u.rooms == t.rooms.insert(room_id, Room { mode: RoomMode::Failed, ..room })
                &&& u.actions.len() == t.actions.len() + 2
                &&& t.actions.is_prefix_of(u.actions)
                &&& u.actions[t.actions.len() as int] matches ActionView::RoomFailed {
                    room_id: r,
                    clients,
                    reason,
                }
                &&& r == room_id
                &&& reason == event->Failure_error.reason
                &&& clients.no_duplicates()
                &&& forall|c: u64| #[trigger]
                    clients.contains(c) <==> room.members.contains_key(c)
                &&& u.actions.last() == ack
            } else {
                u.rooms == t.rooms && u.actions == t.actions.push(ack)
            }
        }),
{
    lemma_remembers(t.workers[instance_id], request_id);
    let named = event->Failure_room_id;
    if named is Some && t.rooms.contains_key(named->0) {
        news::lemma_clients(t.rooms[named->0]);
    }
}

/// An event of an unknown worker, on another connection than its current one, or without a
/// number is an error and changes nothing.
pub proof fn law_event_is_checked(
    t: Table,
    connection_id: u64,
    instance_id: Text,
    event: EventView,
)
    ensures
        ({
            let (u, answer) = t.handle_sfu_input(
                InputView::Event { connection_id, instance_id, event },
            );
            let known = t.workers.contains_key(instance_id);
            let current = is_connected(t, instance_id, connection_id);
            &&& !known ==> u == t && answer == Err::<(), Text>("UNKNOWN_SFU"@)
            &&& known && (!current || event.request_id == 0) ==> u == t && answer == Err::<
                (),
                Text,
            >("STALE_SFU_SESSION"@)
        }),
{
}

/// The room that a command speaks of is the one that it names.
pub proof fn law_command_names_its_room(command: CommandView)
    ensures
        model::command_room(command) == (match command.command {
            CommandKindView::SyncRoom(sync) => sync.room_id,
            CommandKindView::Join(join) => join.room_id,
            CommandKindView::Leave(leave) => leave.room_id,
            CommandKindView::Signal(signal) => signal.room_id,
        }),
{
}

/// A join of an upgrade that was answered otherwise than it was asked, or by another worker,
/// ends the upgrade: the room is direct again under its epoch, without the client that was
/// to join, and the others as they were; the client is refused for the reason of the worker,
/// or, without one, because the worker is unavailable.
#[verifier::rlimit(40)]
pub proof fn law_wrong_join_ends_the_upgrade(
    t: Table,
    connection_id: u64,
    instance_id: Text,
    request_id: u64,
    expected: Text,
    join: sfu::JoinMember,
    result: Result<CommandOk, ErrorView>,
    now: Instant,
)
    requires
        t.inv(),
        is_connected(t, instance_id, connection_id),
        t.pending_commands.contains_key(request_id),
        t.pending_commands[request_id] == (Pending::UpgradeJoin { instance_id: expected, join }),
        t.rooms.contains_key(join.room_id),
        t.rooms[join.room_id].mode == RoomMode::Upgrading,
        expected != instance_id || result != Ok::<CommandOk, ErrorView>(
            CommandOk::MemberJoined(join),
        ),
    ensures
        ({
            let room = t.rooms[join.room_id];
            let upgrade = room.upgrade->0;
            let reason = reason_of(result);
            let (u, answer) = t.handle_sfu_input(
                result_input(connection_id, instance_id, request_id, result, now),
            );
            &&& answer is Ok
            &&& u.rooms == t.rooms.insert(
                join.room_id,
                Room {
                    members: room.members.remove(upgrade.joining_client_id),
                    mode: RoomMode::P2p,
                    assigned_instance: None,
                    upgrade: None,
                    ..room
                },
            )
            &&& u.actions.last() == (ActionView::AdmissionCompleted {
                authority_request_id: upgrade.authority_request_id,
                result: Err(
                    if reason.len() == 0 {
                        "WORKER_UNAVAILABLE"@
                    } else {
                        reason
                    },
                ),
            })
        }),
{
    let room_id = join.room_id;
    let room = t.rooms[room_id];
    let upgrade = room.upgrade->0;
    let u = without_command(t, request_id);
    assert(t.seats(room_id, room));
    let assigned = room.assigned_instance->0;
    super::upgrades::lemma_abort_upgrade_rooms(u, room_id, reason_of(result));
    let back = Room {
        mode: RoomMode::P2p,
        assigned_instance: None,
        upgrade: None,
        ..room.without_member(upgrade.joining_client_id)
    };
    let joined = upgrade.joined_clients;
    assert forall|i: int| 0 <= i < joined.len() implies back.has(#[trigger] joined[i]) by {
        let ordered = upgrade.ordered_clients;
        assert(joined[i] == ordered[i]);
        assert(room.has(ordered[i]));
        assert(ordered[i] != ordered[ordered.len() - 1]);
    }
    let v = u.with_room(room_id, back).released(assigned, room_id, 3);
    if u.connection(assigned) is Some {
        super::upgrades::lemma_leave_joined_actions(
            v,
            assigned,
            u.connection(assigned)->0,
            room_id,
            joined,
        );
    }
}

/// A known worker that registers, under whatever connection it had before, is sent the
/// state of each of its rooms; what was still waited for of earlier such messages is not
/// any more.
#[verifier::rlimit(40)]
pub proof fn law_each_room_is_synchronized(
    t: Table,
    connection_id: u64,
    instance_id: Text,
    request_id: u64,
    capacity: Capacity,
    room_id: u64,
)
    requires
        t.inv(),
        t.workers.contains_key(instance_id),
        instance_id.len() > 0,
        request_id != 0,
        capacity.max_rooms != 0,
        capacity.max_clients != 0,
        t.next_sfu_request_id + t.workers[instance_id].assigned_rooms.len() < u64::MAX,
    ensures
        ({
            let u = t.handle_sfu_input(
                InputView::Register { connection_id, instance_id, request_id, capacity },
            ).0;
            &&& t.workers[instance_id].assigned_rooms.contains(room_id) && t.rooms.contains_key(
                room_id,
            ) ==> has_sync(u.actions, connection_id, room_id, t.rooms[room_id])
            &&& forall|id: u64| #[trigger]
                t.pending_commands.contains_key(id) && id < t.next_sfu_request_id && (
                t.pending_commands[id] matches Pending::SyncRoom { instance_id: i, .. } && i
                    == instance_id) ==> !u.pending_commands.contains_key(id)
        }),
{
    let w = t.worker_connected(connection_id, instance_id, request_id, capacity);
    let base = w.without_syncs(instance_id);
    let rooms = crate::ord_map::in_order::<u64>(t.workers[instance_id].assigned_rooms);
    crate::ord_map::lemma_in_order::<u64>(t.workers[instance_id].assigned_rooms);
    crate::ord_map::lemma_ascending_no_duplicates::<u64>(rooms);
    rooms.unique_seq_to_set();
    assert(rooms.to_set() =~= t.workers[instance_id].assigned_rooms) by {
        assert forall|r: u64| rooms.to_set().contains(r) <==> t.workers[
            instance_id
        ].assigned_rooms.contains(r) by {
            assert(rooms.contains(r) <==> t.workers[instance_id].assigned_rooms.contains(r));
        }
    }
    super::workers::lemma_sync_rooms_sends(base, instance_id, connection_id, rooms);
    let u = base.sync_rooms(instance_id, connection_id, rooms);
    let known = super::workers::known_rooms(base, rooms);
    crate::seqs::lemma_filter_contains(rooms, super::workers::is_known(base));
    if t.workers[instance_id].assigned_rooms.contains(room_id) && t.rooms.contains_key(room_id) {
        assert(rooms.contains(room_id));
        assert(known.contains(room_id));
        let k = choose|k: int| 0 <= k < known.len() && known[k] == room_id;
        assert(super::workers::is_sync_command(
            u.actions[base.actions.len() + k],
            connection_id,
            known[k],
            base.rooms[known[k]],
        ));
    }
    assert forall|id: u64| #[trigger]
        t.pending_commands.contains_key(id) && id < t.next_sfu_request_id && (
        t.pending_commands[id] matches Pending::SyncRoom { instance_id: i, .. } && i
            == instance_id) implies !u.pending_commands.contains_key(id) by {
        assert(w.is_sync_with(id, instance_id));
        assert(!base.pending_commands.contains_key(id));
        lemma_syncs_are_new(base, instance_id, connection_id, rooms, id);
    }
}

/// Whether one of the actions sends the state of a room.
pub open spec fn has_sync(
    actions: Seq<ActionView>,
    connection_id: u64,
    room_id: u64,
    room: Room,
) -> bool {
    exists|k: int|
        0 <= k < actions.len() && super::workers::is_sync_command(
            #[trigger] actions[k],
            connection_id,
            room_id,
            room,
        )
}

proof fn lemma_syncs_are_new(
    t: Table,
    instance_id: Text,
    connection_id: u64,
    rooms: Seq<u64>,
    id: u64,
)
    requires
        id < t.next_sfu_request_id,
        !t.pending_commands.contains_key(id),
    ensures
        !t.sync_rooms(instance_id, connection_id, rooms).pending_commands.contains_key(id),
        t.next_sfu_request_id <= t.sync_rooms(
            instance_id,
            connection_id,
            rooms,
        ).next_sfu_request_id,
    decreases rooms.len(),
{
    if rooms.len() > 0 {
        lemma_syncs_are_new(t, instance_id, connection_id, rooms.drop_last(), id);
    }
}

} // verus!
