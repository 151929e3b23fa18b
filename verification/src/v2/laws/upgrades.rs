//! Moves of a direct room to a worker.

use crate::key::Key;
use crate::ord_map;
use crate::seqs::Text;
use crate::sfu;
use crate::sfu::{CommandKindView, CommandOk, CommandView, OutputView};
use crate::time::Instant;
use crate::v2::model::{Pending, Room, Table};
use crate::v2::{
    model, ActionView, AdmissionResultView, AdmissionView, RoomMode, MAX_P2P_MEMBERS,
};
use vstd::prelude::*;

verus! {

/// Of finitely many workers that can host, one is the best.
proof fn lemma_best_exists(t: Table, n: usize, names: Set<Text>)
    requires
        names.finite(),
        names.len() > 0,
        forall|i: Text| #[trigger] names.contains(i) ==> t.can_host(i, n),
    ensures
        exists|b: Text|
            names.contains(b) && forall|i: Text| #[trigger]
                names.contains(i) && i != b ==> t.less_loaded(b, i),
    decreases names.len(),
{
    let x = names.choose();
    let rest = names.remove(x);
    if rest.len() == 0 {
        assert forall|i: Text| #[trigger] names.contains(i) && i != x implies t.less_loaded(
            x,
            i,
        ) by {
            assert(rest.contains(i));
        }
    } else {
        assert forall|i: Text| #[trigger] rest.contains(i) implies t.can_host(i, n) by {
            assert(names.contains(i));
        }
        lemma_best_exists(t, n, rest);
        let b = choose|b: Text|
            rest.contains(b) && forall|i: Text| #[trigger]
                rest.contains(i) && i != b ==> t.less_loaded(b, i);
        String::before_is_total(x, b);
        let best = if t.less_loaded(x, b) {
            x
        } else {
            b
        };
        assert forall|i: Text| #[trigger] names.contains(i) && i != best implies t.less_loaded(
            best,
            i,
        ) by {
            if i != x {
                assert(rest.contains(i));
            }
            if best == x && i != b {
                lemma_less_loaded_is_transitive(t, x, b, i);
            }
        }
        assert(names.contains(best));
    }
}

proof fn lemma_less_loaded_is_transitive(t: Table, a: Text, b: Text, c: Text)
    requires
        t.less_loaded(a, b),
        t.less_loaded(b, c),
    ensures
        t.less_loaded(a, c),
{
    if crate::key::text_before(a, b) && crate::key::text_before(b, c) {
        String::before_is_transitive(a, b, c);
    }
}

/// The selected worker can host, and carries less than every other one that can.
pub proof fn law_selected_worker_is_best(t: Table, n: usize)
    requires
        t.workers.dom().finite(),
        t.selected_worker(n) is Some,
    ensures
        t.is_best_worker(t.selected_worker(n)->0, n),
{
    let names = t.workers.dom().filter(|i: Text| t.can_host(i, n));
    let some = choose|i: Text| t.can_host(i, n);
    assert(names.contains(some));
    lemma_best_exists(t, n, names);
    let b = choose|b: Text|
        names.contains(b) && forall|i: Text| #[trigger]
            names.contains(i) && i != b ==> t.less_loaded(b, i);
    assert(t.is_best_worker(b, n)) by {
        assert forall|other: Text| #[trigger] t.can_host(other, n) && other
            != b implies t.less_loaded(b, other) by {
            assert(names.contains(other));
        }
    }
}

/// A third member of a direct room moves it to a worker: the least loaded of those
/// that can take it. The room is upgrading, and the member with the lowest number is
/// the first to join the worker.
pub proof fn law_third_join_starts_upgrade(
    t: Table,
    authority_request_id: u64,
    now: Instant,
    room_id: u64,
    client_id: u64,
    token: Text,
)
    requires
        t.inv(),
        t.rooms.contains_key(room_id),
        t.rooms[room_id].mode == RoomMode::P2p,
        t.rooms[room_id].members.dom().len() == MAX_P2P_MEMBERS,
        !t.rooms[room_id].has(client_id),
        exists|i: Text| t.can_host(i, 3),
    ensures
        ({
            let room = t.rooms[room_id];
            let (u, result) = t.admit_client(authority_request_id, now, room_id, client_id, token);
            let after = u.rooms[room_id];
            let instance_id = t.selected_worker(3)->0;
            &&& result == Ok::<AdmissionResultView, Text>(AdmissionResultView::Pending)
            &&& t.is_best_worker(instance_id, 3)
            &&& after.mode == RoomMode::Upgrading
            &&& after.assigned_instance == Some(instance_id)
            &&& after.members.dom() == room.members.dom().insert(client_id)
            &&& after.signal_epoch == room.signal_epoch
            &&& after.upgrade->0.ordered_clients == room.clients().push(client_id)
            &&& after.upgrade->0.next_client == 0
            &&& u.workers[instance_id].assigned_rooms.contains(room_id)
            &&& u.actions == t.actions.push(
                ActionView::Sfu(
                    OutputView::Command {
                        connection_id: t.workers[instance_id].connection_id->0,
                        command: CommandView {
                            request_id: t.next_sfu_request_id,
                            command: CommandKindView::Join(
                                sfu::JoinMember {
                                    room_id,
                                    client_id: room.clients()[0],
                                    lifecycle_id: t.next_lifecycle(room_id, room.clients()[0]),
                                    assignment_epoch: model::increment(room.assignment_epoch),
                                },
                            ),
                        },
                    },
                ),
            )
        }),
{
    let room = t.rooms[room_id];
    let instance_id = t.selected_worker(3)->0;
    law_selected_worker_is_best(t, 3);
    ord_map::lemma_in_order::<u64>(room.members.dom());
    let first = room.clients()[0];
    assert(room.clients().contains(first));
    assert(room.members.dom().contains(first));
    let member = t.admitted_member(now, room_id, client_id, token, false);
    let v = t.upgrading(authority_request_id, room_id, client_id, member, instance_id);
    assert(v.rooms[room_id].members.dom() =~= room.members.dom().insert(client_id));
}

/// Where no worker can take the room, a third member is refused and nothing changes.
pub proof fn law_third_join_needs_a_worker(
    t: Table,
    authority_request_id: u64,
    now: Instant,
    room_id: u64,
    client_id: u64,
    token: Text,
)
    requires
        t.inv(),
        t.rooms.contains_key(room_id),
        t.rooms[room_id].mode == RoomMode::P2p,
        t.rooms[room_id].members.dom().len() == MAX_P2P_MEMBERS,
        !t.rooms[room_id].has(client_id),
        forall|i: Text| !t.can_host(i, 3),
    ensures
        t.admit_client(authority_request_id, now, room_id, client_id, token) == (
            t,
            Err::<AdmissionResultView, Text>("NO_SFU_AVAILABLE"@),
        ),
{
}

/// The result of a command, as its worker sends it.
pub open spec fn result_input(
    connection_id: u64,
    instance_id: Text,
    request_id: u64,
    result: Result<CommandOk, sfu::ErrorView>,
    now: Instant,
) -> sfu::InputView {
    sfu::InputView::CommandResult {
        connection_id,
        instance_id,
        result: sfu::CommandResultView { request_id, result },
        now,
    }
}

/// An upgrading room becomes an SFU room only by the result of the last join that it
/// waits for, that of the joining client, accepted as it was asked for by the worker of
/// the room, after all the others have joined in their order. Nothing else that a worker
/// does completes an upgrade.
pub proof fn law_only_the_last_join_commits(t: Table, room_id: u64, input: sfu::InputView)
    requires
        t.inv(),
        t.rooms.contains_key(room_id),
        t.rooms[room_id].mode == RoomMode::Upgrading,
        t.handle_sfu_input(input).0.rooms.contains_key(room_id),
        t.handle_sfu_input(input).0.rooms[room_id].mode == RoomMode::Sfu,
    ensures
        ({
            let upgrade = t.rooms[room_id].upgrade->0;
            &&& input matches sfu::InputView::CommandResult { instance_id, result, .. }
            &&& t.pending_commands.contains_key(result.request_id)
            &&& t.pending_commands[result.request_id] matches Pending::UpgradeJoin {
                instance_id: expected,
                join,
            }
            &&& expected == instance_id
            &&& join.room_id == room_id
            &&& result.result == Ok::<CommandOk, sfu::ErrorView>(CommandOk::MemberJoined(join))
            &&& t.awaits_join(instance_id, join)
            &&& join.client_id == upgrade.joining_client_id
            &&& upgrade.joined_clients == upgrade.ordered_clients.drop_last()
        }),
{
    match input {
        sfu::InputView::Register { connection_id, instance_id, request_id, capacity } => {
            lemma_register_worker_keeps_rooms(t, connection_id, instance_id, request_id, capacity);
        },
        sfu::InputView::CommandResult { connection_id, instance_id, result, now } => {
            if t.connection(instance_id) == Some(connection_id) && t.pending_commands.contains_key(
                result.request_id,
            ) {
                let u = t.acknowledged(result.request_id);
                match t.pending_commands[result.request_id] {
                    Pending::UpgradeJoin { instance_id: expected, join } => {
                        lemma_abort_upgrade_rooms(
                            u,
                            join.room_id,
                            model::failure_reason(result.result),
                        );
                        let upgrade = t.rooms[room_id].upgrade->0;
                        assert(upgrade.ordered_clients.drop_last()
                            =~= upgrade.ordered_clients.take(
                            upgrade.ordered_clients.len() - 1,
                        ));
                    },
                    _ => {},
                }
            }
        },
        _ => {},
    }
}

/// Registering a worker leaves the rooms as they are.
pub proof fn lemma_register_worker_keeps_rooms(
    t: Table,
    connection_id: u64,
    instance_id: Text,
    request_id: u64,
    capacity: sfu::Capacity,
)
    ensures
        t.register_worker(connection_id, instance_id, request_id, capacity).rooms == t.rooms,
{
    let u = t.worker_connected(
        connection_id,
        instance_id,
        request_id,
        capacity,
    ).without_syncs(instance_id);
    lemma_sync_rooms_keeps_rooms(
        u,
        instance_id,
        connection_id,
        ord_map::in_order::<u64>(u.workers[instance_id].assigned_rooms),
    );
}

pub proof fn lemma_sync_rooms_keeps_rooms(
    t: Table,
    instance_id: Text,
    connection_id: u64,
    rooms: Seq<u64>,
)
    ensures
        t.sync_rooms(instance_id, connection_id, rooms).rooms == t.rooms,
        t.sync_rooms(instance_id, connection_id, rooms).workers == t.workers,
    decreases rooms.len(),
{
    if rooms.len() > 0 {
        lemma_sync_rooms_keeps_rooms(t, instance_id, connection_id, rooms.drop_last());
    }
}

proof fn lemma_leave_joined_keeps_rooms(
    t: Table,
    instance_id: Text,
    connection: Option<u64>,
    room_id: u64,
    joined: Seq<u64>,
)
    ensures
        t.leave_joined(instance_id, connection, room_id, joined).0.rooms == t.rooms,
        t.leave_joined(instance_id, connection, room_id, joined).0.workers == t.workers,
    decreases joined.len(),
{
    if joined.len() > 0 {
        lemma_leave_joined_keeps_rooms(t, instance_id, connection, room_id, joined.drop_last());
    }
}

/// An upgrade that ends early leaves a direct room without the joining client, and
/// all other rooms as they are; the worker no longer has the room.
pub proof fn lemma_abort_upgrade_rooms(t: Table, room_id: u64, reason: Text)
    ensures
        ({
            let u = t.abort_upgrade(room_id, reason).0;
            if t.rooms.contains_key(room_id) && t.rooms[room_id].upgrade is Some
                && t.rooms[room_id].assigned_instance is Some {
                u.workers == t.released(
                    t.rooms[room_id].assigned_instance->0,
                    room_id,
                    3,
                ).workers
            } else {
                u.workers == t.workers
            }
        }),
        ({
            let u = t.abort_upgrade(room_id, reason).0;
            if t.rooms.contains_key(room_id) && t.rooms[room_id].upgrade is Some {
                u.rooms == t.rooms.insert(
                    room_id,
                    Room {
                        mode: RoomMode::P2p,
                        assigned_instance: None,
                        upgrade: None,
                        ..t.rooms[room_id].without_member(
                            t.rooms[room_id].upgrade->0.joining_client_id,
                        )
                    },
                )
            } else {
                u == t
            }
        }),
{
    if t.rooms.contains_key(room_id) && t.rooms[room_id].upgrade is Some {
        let room = t.rooms[room_id];
        let upgrade = room.upgrade->0;
        if room.assigned_instance is Some {
            let instance_id = room.assigned_instance->0;
            let aborted = t.with_room(
                room_id,
                Room {
                    mode: RoomMode::P2p,
                    assigned_instance: None,
                    upgrade: None,
                    ..room.without_member(upgrade.joining_client_id)
                },
            );
            lemma_leave_joined_keeps_rooms(
                aborted.released(instance_id, room_id, 3),
                instance_id,
                t.connection(instance_id),
                room_id,
                upgrade.joined_clients,
            );
        }
    }
}

/// While a room is upgrading, an accepted join that is not the last leads to the join
/// of the next client. The room is upgrading still, and nobody else hears of it.
pub proof fn law_join_leads_to_the_next(
    t: Table,
    room_id: u64,
    connection_id: u64,
    instance_id: Text,
    request_id: u64,
    join: sfu::JoinMember,
    now: Instant,
)
    requires
        t.inv(),
        t.rooms.contains_key(room_id),
        t.rooms[room_id].mode == RoomMode::Upgrading,
        t.serving(t.rooms[room_id]) == Some((instance_id, connection_id)),
        t.pending_commands.contains_key(request_id),
        t.pending_commands[request_id] == (Pending::UpgradeJoin { instance_id, join }),
        join.room_id == room_id,
        t.awaits_join(instance_id, join),
        t.rooms[room_id].upgrade->0.next_client + 1
            < t.rooms[room_id].upgrade->0.ordered_clients.len(),
    ensures
        ({
            let room = t.rooms[room_id];
            let upgrade = room.upgrade->0;
            let (u, result) = t.handle_sfu_input(
                result_input(
                    connection_id,
                    instance_id,
                    request_id,
                    Ok(CommandOk::MemberJoined(join)),
                    now,
                ),
            );
            let next = next_join(room, room_id);
            &&& result is Ok
            &&& u.workers == t.workers
            &&& u.lifecycle_ids == t.lifecycle_ids
            &&& u.rooms == t.rooms.insert(
                room_id,
                Room {
                    upgrade: Some(
                        model::Upgrade {
                            joined_clients: upgrade.joined_clients.push(join.client_id),
                            next_client: upgrade.next_client + 1,
                            ..upgrade
                        },
                    ),
                    ..room
                },
            )
            &&& u.next_sfu_request_id == model::increment(t.next_sfu_request_id)
            &&& u.pending_commands == t.pending_commands.remove(request_id).insert(
                t.next_sfu_request_id,
                Pending::UpgradeJoin { instance_id, join: next },
            )
            &&& u.actions == t.actions.push(
                ActionView::Sfu(
                    OutputView::Command {
                        connection_id,
                        command: CommandView {
                            request_id: t.next_sfu_request_id,
                            command: CommandKindView::Join(next),
                        },
                    },
                ),
            )
        }),
{
    let upgrade = t.rooms[room_id].upgrade->0;
    let next = upgrade.ordered_clients[upgrade.next_client as int + 1];
    assert(t.rooms[room_id].has(next));
}

/// The join after the one that an upgrading room waits for.
pub open spec fn next_join(room: Room, room_id: u64) -> sfu::JoinMember {
    let upgrade = room.upgrade->0;
    let client_id = upgrade.ordered_clients[upgrade.next_client as int + 1];
    sfu::JoinMember {
        room_id,
        client_id,
        lifecycle_id: room.members[client_id].lifecycle_id,
        assignment_epoch: room.assignment_epoch,
    }
}

/// The last accepted join completes the upgrade: the room runs on its worker under the
/// next signal epoch with nothing queued and without an offerer, the members that were
/// there before are told, and the one that joined is admitted.
pub proof fn law_last_join_commits(
    t: Table,
    room_id: u64,
    connection_id: u64,
    instance_id: Text,
    request_id: u64,
    join: sfu::JoinMember,
    now: Instant,
)
    requires
        t.inv(),
        t.rooms.contains_key(room_id),
        t.rooms[room_id].mode == RoomMode::Upgrading,
        t.serving(t.rooms[room_id]) == Some((instance_id, connection_id)),
        t.pending_commands.contains_key(request_id),
        t.pending_commands[request_id] == (Pending::UpgradeJoin { instance_id, join }),
        join.room_id == room_id,
        t.awaits_join(instance_id, join),
        t.rooms[room_id].upgrade->0.next_client + 1
            == t.rooms[room_id].upgrade->0.ordered_clients.len(),
    ensures
        ({
            let room = t.rooms[room_id];
            let upgrade = room.upgrade->0;
            let joining = upgrade.joining_client_id;
            let (u, result) = t.handle_sfu_input(
                result_input(
                    connection_id,
                    instance_id,
                    request_id,
                    Ok(CommandOk::MemberJoined(join)),
                    now,
                ),
            );
            let after = u.rooms[room_id];
            &&& result is Ok
            &&& u.rooms.contains_key(room_id)
            &&& after.mode == RoomMode::Sfu
            &&& after.signal_epoch == model::increment(room.signal_epoch)
            &&& after.upgrade is None
            &&& after.assigned_instance == Some(instance_id)
            &&& after.assignment_epoch == room.assignment_epoch
            &&& after.pending_join is None
            &&& after.pending_leave is None
            &&& u.rooms == t.rooms.insert(room_id, after)
            &&& u.workers == t.workers
            &&& u.lifecycle_ids == t.lifecycle_ids
            &&& u.pending_commands == t.pending_commands.remove(request_id)
            &&& after.members.dom() == room.members.dom()
            &&& forall|c: u64| #[trigger]
                after.has(c) ==> after.members[c] == room.members[c].reset(false)
            &&& u.actions == t.actions.push(
                ActionView::Upgraded {
                    room_id,
                    signal_epoch: after.signal_epoch,
                    existing_clients: room.others(joining),
                },
            ).push(
                ActionView::AdmissionCompleted {
                    authority_request_id: upgrade.authority_request_id,
                    result: Ok(
                        AdmissionView::relayed(after.signal_epoch, room.members[joining].token),
                    ),
                },
            )
        }),
{
    let room = t.rooms[room_id];
    let u = t.handle_sfu_input(
        result_input(
            connection_id,
            instance_id,
            request_id,
            Ok(CommandOk::MemberJoined(join)),
            now,
        ),
    ).0;
    assert(u.rooms[room_id].members.dom() =~= room.members.dom());
    assert(u.rooms =~= t.rooms.insert(room_id, u.rooms[room_id]));
}

/// A join that was not accepted ends the upgrade: the room is direct again under the
/// signal epoch that it had, without the client that was to join, which is refused. The
/// worker no longer has the room, and is told to let go of those that had joined.
pub proof fn law_failed_join_aborts(
    t: Table,
    room_id: u64,
    connection_id: u64,
    instance_id: Text,
    request_id: u64,
    join: sfu::JoinMember,
    error: sfu::ErrorView,
    now: Instant,
)
    requires
        t.inv(),
        t.rooms.contains_key(room_id),
        t.rooms[room_id].mode == RoomMode::Upgrading,
        t.serving(t.rooms[room_id]) == Some((instance_id, connection_id)),
        t.pending_commands.contains_key(request_id),
        t.pending_commands[request_id] == (Pending::UpgradeJoin { instance_id, join }),
        join.room_id == room_id,
    ensures
        ({
            let room = t.rooms[room_id];
            let upgrade = room.upgrade->0;
            let joined = upgrade.joined_clients;
            let (u, result) = t.handle_sfu_input(
                result_input(connection_id, instance_id, request_id, Err(error), now),
            );
            let after = u.rooms[room_id];
            let count = t.actions.len();
            &&& result is Ok
            &&& u.rooms.contains_key(room_id)
            &&& after == (Room {
                mode: RoomMode::P2p,
                assigned_instance: None,
                upgrade: None,
                ..room.without_member(upgrade.joining_client_id)
            })
            &&& !u.workers[instance_id].assigned_rooms.contains(room_id)
            &&& u.actions.len() == count + joined.len() + 1
            &&& u.actions.take(count as int) == t.actions
            &&& forall|i: int|
                0 <= i < joined.len() ==> is_leave_command(
                    #[trigger] u.actions[count + i],
                    connection_id,
                    leave_of(room, room_id, joined[i]),
                )
            &&& u.actions.last() == (ActionView::AdmissionCompleted {
                authority_request_id: upgrade.authority_request_id,
                result: Err(
                    if error.reason.len() == 0 {
                        "WORKER_UNAVAILABLE"@
                    } else {
                        error.reason
                    },
                ),
            })
        }),
{
    let room = t.rooms[room_id];
    let upgrade = room.upgrade->0;
    let joined = upgrade.joined_clients;
    let acknowledged = t.acknowledged(request_id);
    let back = Room {
        mode: RoomMode::P2p,
        assigned_instance: None,
        upgrade: None,
        ..room.without_member(upgrade.joining_client_id)
    };
    assert forall|i: int| 0 <= i < joined.len() implies back.has(#[trigger] joined[i]) by {
        let ordered = upgrade.ordered_clients;
        assert(joined[i] == ordered[i]);
        assert(room.has(ordered[i]));
        assert(ordered[i] != ordered[ordered.len() - 1]);
    }
    let v = acknowledged.with_room(room_id, back).released(instance_id, room_id, 3);
    lemma_leave_joined_keeps_rooms(v, instance_id, Some(connection_id), room_id, joined);
    lemma_leave_joined_actions(v, instance_id, connection_id, room_id, joined);
    let w = v.leave_joined(instance_id, Some(connection_id), room_id, joined).0;
    assert forall|i: int| 0 <= i < joined.len() implies leave_of(back, room_id, joined[i])
        == leave_of(room, room_id, joined[i]) by {}
    let u = t.handle_sfu_input(
        result_input(connection_id, instance_id, request_id, Err(error), now),
    ).0;
    assert(u.actions.take(t.actions.len() as int) =~= w.actions.take(t.actions.len() as int));
}

/// The notice that a member has left because the room closed at the worker.
pub open spec fn leave_of(room: Room, room_id: u64, client_id: u64) -> sfu::LeaveMember {
    sfu::LeaveMember {
        room_id,
        client_id,
        lifecycle_id: room.members[client_id].lifecycle_id,
        assignment_epoch: room.assignment_epoch,
        reason: sfu::LeaveReason::RoomClosed,
    }
}

/// Whether an action sends this notice to a worker.
pub open spec fn is_leave_command(
    action: ActionView,
    connection_id: u64,
    leave: sfu::LeaveMember,
) -> bool {
    &&& action matches ActionView::Sfu(OutputView::Command { connection_id: to, command })
    &&& to == connection_id
    &&& command.command == CommandKindView::Leave(leave)
}

/// The worker is told of each of the clients that had joined, in that order.
pub proof fn lemma_leave_joined_actions(
    t: Table,
    instance_id: Text,
    connection_id: u64,
    room_id: u64,
    joined: Seq<u64>,
)
    requires
        t.rooms.contains_key(room_id),
        forall|i: int| 0 <= i < joined.len() ==> t.rooms[room_id].has(#[trigger] joined[i]),
    ensures
        ({
            let (u, complete) = t.leave_joined(instance_id, Some(connection_id), room_id, joined);
            let count = t.actions.len();
            &&& complete
            &&& u.actions.len() == count + joined.len()
            &&& u.actions.take(count as int) == t.actions
            &&& forall|i: int|
                0 <= i < joined.len() ==> is_leave_command(
                    #[trigger] u.actions[count + i],
                    connection_id,
                    leave_of(t.rooms[room_id], room_id, joined[i]),
                )
        }),
    decreases joined.len(),
{
    let count = t.actions.len();
    if joined.len() == 0 {
        assert(t.actions.take(count as int) =~= t.actions);
    } else {
        let front = joined.drop_last();
        lemma_leave_joined_actions(t, instance_id, connection_id, room_id, front);
        lemma_leave_joined_keeps_rooms(t, instance_id, Some(connection_id), room_id, front);
        let v = t.leave_joined(instance_id, Some(connection_id), room_id, front).0;
        let u = t.leave_joined(instance_id, Some(connection_id), room_id, joined).0;
        assert(joined.last() == joined[joined.len() - 1]);
        assert(t.rooms[room_id].has(joined.last()));
        assert(u.actions.take(count as int) =~= v.actions.take(count as int));
        assert forall|i: int| 0 <= i < joined.len() implies is_leave_command(
            #[trigger] u.actions[count + i],
            connection_id,
            leave_of(t.rooms[room_id], room_id, joined[i]),
        ) by {
            if i < front.len() {
                assert(u.actions[count + i] == v.actions[count + i]);
                assert(front[i] == joined[i]);
            }
        }
    }
}

/// The table after the worker of a room has accepted a join that the room waits for.
pub open spec fn join_accepted(t: Table, room_id: u64, request_id: u64, now: Instant) -> Table {
    let (instance_id, connection_id) = t.serving(t.rooms[room_id])->0;
    t.handle_sfu_input(
        result_input(
            connection_id,
            instance_id,
            request_id,
            Ok(CommandOk::MemberJoined(t.pending_commands[request_id]->UpgradeJoin_join)),
            now,
        ),
    ).0
}

/// A third member is admitted once all three have joined the worker, one after the
/// other, and not before: until then the room is upgrading under its old signal epoch,
/// and with the third accepted join it runs on the worker under the next one.
pub proof fn law_upgrade_needs_every_join(
    t: Table,
    authority_request_id: u64,
    now: Instant,
    room_id: u64,
    client_id: u64,
    token: Text,
)
    requires
        t.inv(),
        t.rooms.contains_key(room_id),
        t.rooms[room_id].mode == RoomMode::P2p,
        t.rooms[room_id].members.dom().len() == MAX_P2P_MEMBERS,
        !t.rooms[room_id].has(client_id),
        exists|i: Text| t.can_host(i, 3),
        t.next_sfu_request_id <= u64::MAX - 3,
    ensures
        ({
            let room = t.rooms[room_id];
            let id = t.next_sfu_request_id;
            let t0 = t.admit_client(authority_request_id, now, room_id, client_id, token).0;
            let t1 = join_accepted(t0, room_id, id, now);
            let t2 = join_accepted(t1, room_id, (id + 1) as u64, now);
            let t3 = join_accepted(t2, room_id, (id + 2) as u64, now);
            let epoch = model::increment(room.signal_epoch);
            &&& t0.rooms[room_id].mode == RoomMode::Upgrading
            &&& t1.rooms[room_id].mode == RoomMode::Upgrading
            &&& t2.rooms[room_id].mode == RoomMode::Upgrading
            &&& t2.rooms[room_id].signal_epoch == room.signal_epoch
            &&& t3.rooms[room_id].mode == RoomMode::Sfu
            &&& t3.rooms[room_id].signal_epoch == epoch
            &&& t3.rooms[room_id].members.dom() == room.members.dom().insert(client_id)
            &&& t2.actions.len() == t.actions.len() + 3
            &&& t3.actions == t2.actions.push(
                ActionView::Upgraded {
                    room_id,
                    signal_epoch: epoch,
                    existing_clients: t2.rooms[room_id].others(client_id),
                },
            ).push(
                ActionView::AdmissionCompleted {
                    authority_request_id,
                    result: Ok(AdmissionView::relayed(epoch, token)),
                },
            )
        }),
{
    let room = t.rooms[room_id];
    let id = t.next_sfu_request_id;
    let t0 = t.admit_client(authority_request_id, now, room_id, client_id, token).0;
    law_third_join_starts_upgrade(t, authority_request_id, now, room_id, client_id, token);
    crate::v2::invariants::law_admit_client_keeps_inv(
        t,
        authority_request_id,
        now,
        room_id,
        client_id,
        token,
    );
    let instance_id = t.selected_worker(3)->0;
    let connection_id = t.workers[instance_id].connection_id->0;
    ord_map::lemma_in_order::<u64>(room.members.dom());
    assert(t0.rooms[room_id].upgrade->0.ordered_clients.len() == 3);
    assert forall|c: u64| #[trigger] t0.rooms[room_id].has(c) implies t0.lifecycle_ids.contains_key(
        (room_id, c),
    ) && t0.lifecycle_ids[(room_id, c)] == t0.rooms[room_id].members[c].lifecycle_id by {}
    let j0 = t0.pending_commands[id]->UpgradeJoin_join;
    law_join_leads_to_the_next(t0, room_id, connection_id, instance_id, id, j0, now);
    let t1 = join_accepted(t0, room_id, id, now);
    crate::v2::invariants::law_sfu_input_keeps_inv(
        t0,
        result_input(connection_id, instance_id, id, Ok(CommandOk::MemberJoined(j0)), now),
    );
    let id1 = (id + 1) as u64;
    let j1 = t1.pending_commands[id1]->UpgradeJoin_join;
    law_join_leads_to_the_next(t1, room_id, connection_id, instance_id, id1, j1, now);
    let t2 = join_accepted(t1, room_id, id1, now);
    crate::v2::invariants::law_sfu_input_keeps_inv(
        t1,
        result_input(connection_id, instance_id, id1, Ok(CommandOk::MemberJoined(j1)), now),
    );
    let id2 = (id + 2) as u64;
    let j2 = t2.pending_commands[id2]->UpgradeJoin_join;
    law_last_join_commits(t2, room_id, connection_id, instance_id, id2, j2, now);
}

/// No admission, registration, message, departure or timeout completes an upgrade.
pub proof fn law_nothing_else_commits(
    t: Table,
    room_id: u64,
    request_id: u64,
    now: Instant,
    other_room: u64,
    client_id: u64,
    signal_epoch: u64,
    text: Text,
)
    requires
        t.rooms.contains_key(room_id),
        t.rooms[room_id].mode == RoomMode::Upgrading,
    ensures
        !t.admit_client(request_id, now, other_room, client_id, text).0.runs_on_worker(room_id),
        !t.register(other_room, client_id, text).0.runs_on_worker(room_id),
        !t.deregister(now, other_room, client_id).runs_on_worker(room_id),
        !t.send(other_room, client_id, signal_epoch, text).0.runs_on_worker(room_id),
        !t.remove(request_id, other_room, client_id, text).0.runs_on_worker(room_id),
        !t.handle_timeout(now).0.runs_on_worker(room_id),
{
    lemma_timeout_modes(t, now, room_id);
}

/// Time brings no room onto a worker.
pub proof fn lemma_timeout_modes(t: Table, now: Instant, room_id: u64)
    requires
        !t.runs_on_worker(room_id),
    ensures
        !t.handle_timeout(now).0.runs_on_worker(room_id),
{
    lemma_expire_workers_modes(t, t.expired_workers(now), room_id);
    let u = t.expire_workers(t.expired_workers(now));
    lemma_sweep_rooms_modes(u, now, ord_map::in_order::<u64>(u.rooms.dom()), room_id);
}

/// An accepted join that no upgrade waits for, such as one of an upgrade that the room
/// has given up, is not counted.
pub proof fn law_only_awaited_joins_count(
    t: Table,
    connection_id: u64,
    instance_id: Text,
    request_id: u64,
    join: sfu::JoinMember,
    now: Instant,
)
    requires
        t.connection(instance_id) == Some(connection_id),
        t.pending_commands.contains_key(request_id),
        t.pending_commands[request_id] == (Pending::UpgradeJoin { instance_id, join }),
        t.rooms.contains_key(join.room_id),
        !t.awaits_join(instance_id, join),
    ensures
        t.handle_sfu_input(
            result_input(
                connection_id,
                instance_id,
                request_id,
                Ok(CommandOk::MemberJoined(join)),
                now,
            ),
        ) == (t.acknowledged(request_id), Err::<(), Text>("ROOM_TRANSITION"@)),
{
}

impl Table {
    /// Whether a room runs on a worker.
    pub open spec fn runs_on_worker(self, room_id: u64) -> bool {
        self.rooms.contains_key(room_id) && self.rooms[room_id].mode == RoomMode::Sfu
    }
}

proof fn lemma_lose_rooms_modes(t: Table, rooms: Seq<u64>, room_id: u64)
    requires
        !t.runs_on_worker(room_id),
    ensures
        !t.lose_rooms(rooms).runs_on_worker(room_id),
    decreases rooms.len(),
{
    if rooms.len() > 0 {
        lemma_lose_rooms_modes(t, rooms.drop_last(), room_id);
        let u = t.lose_rooms(rooms.drop_last());
        lemma_abort_upgrade_rooms(u, rooms.last(), "WORKER_UNAVAILABLE"@);
    }
}

proof fn lemma_expire_workers_modes(t: Table, instances: Seq<Text>, room_id: u64)
    requires
        !t.runs_on_worker(room_id),
    ensures
        !t.expire_workers(instances).runs_on_worker(room_id),
    decreases instances.len(),
{
    if instances.len() > 0 {
        lemma_expire_workers_modes(t, instances.drop_last(), room_id);
        let u = t.expire_workers(instances.drop_last());
        let i = instances.last();
        let rooms = if u.workers.contains_key(i) {
            ord_map::in_order::<u64>(u.workers[i].assigned_rooms)
        } else {
            Seq::empty()
        };
        lemma_lose_rooms_modes(u, rooms, room_id);
    }
}

proof fn lemma_sweep_rooms_modes(t: Table, now: Instant, rooms: Seq<u64>, room_id: u64)
    requires
        !t.runs_on_worker(room_id),
    ensures
        !t.sweep_rooms(now, rooms).0.runs_on_worker(room_id),
    decreases rooms.len(),
{
    if rooms.len() > 0 {
        lemma_sweep_rooms_modes(t, now, rooms.drop_last(), room_id);
        let u = t.sweep_rooms(now, rooms.drop_last()).0;
        let r = rooms.last();
        if u.rooms.contains_key(r) && u.rooms[r].downgrade_eligible() {
            lemma_commit_downgrade_rooms(u, r);
        }
    }
}

/// A downgrade leaves a direct room, and all other rooms as they are; the worker no
/// longer has the room.
pub proof fn lemma_commit_downgrade_rooms(t: Table, room_id: u64)
    requires
        t.rooms.contains_key(room_id),
        t.rooms[room_id].members.dom().len() > 0,
    ensures
        t.commit_downgrade(room_id).0.workers == (if t.rooms[room_id].assigned_instance is Some {
            t.released(
                t.rooms[room_id].assigned_instance->0,
                room_id,
                t.rooms[room_id].members.dom().len(),
            ).workers
        } else {
            t.workers
        }),
        t.commit_downgrade(room_id).0.rooms == t.rooms.insert(
            room_id,
            Room {
                mode: RoomMode::P2p,
                signal_epoch: model::increment(t.rooms[room_id].signal_epoch),
                downgrade_deadline: None,
                assigned_instance: None,
                ..t.rooms[room_id].with_initiator(Some(t.rooms[room_id].clients()[0]))
            },
        ),
{
    let old = t.rooms[room_id];
    if old.assigned_instance is Some {
        let instance_id = old.assigned_instance->0;
        let room = Room {
            mode: RoomMode::P2p,
            signal_epoch: model::increment(old.signal_epoch),
            downgrade_deadline: None,
            assigned_instance: None,
            ..old
        };
        let u = t.with_room(room_id, room.with_initiator(Some(old.clients()[0]))).released(
            instance_id,
            room_id,
            old.members.dom().len(),
        );
        lemma_leave_all_keeps_rooms(
            u,
            instance_id,
            t.connection(instance_id),
            room_id,
            old.assignment_epoch,
            old.projections(),
        );
    }
}

pub proof fn lemma_leave_all_keeps_rooms(
    t: Table,
    instance_id: Text,
    connection: Option<u64>,
    room_id: u64,
    assignment_epoch: u64,
    members: Seq<sfu::MemberProjection>,
)
    ensures
        t.leave_all(instance_id, connection, room_id, assignment_epoch, members).rooms == t.rooms,
        t.leave_all(instance_id, connection, room_id, assignment_epoch, members).workers
            == t.workers,
    decreases members.len(),
{
    if members.len() > 0 {
        lemma_leave_all_keeps_rooms(
            t,
            instance_id,
            connection,
            room_id,
            assignment_epoch,
            members.drop_last(),
        );
    }
}

} // verus!
