//! Sessions of workers: what is repeated, lost, resumed or late.

use super::upgrades;
use crate::ord_map;
use crate::seqs;
use crate::seqs::Text;
use crate::sfu;
use crate::sfu::{CommandKindView, CommandOk, CommandView, OutputView, SyncRoomView};
use crate::time::Instant;
use crate::v2::model::{Pending, Room, Table};
use crate::v2::{model, ActionView, RoomMode, EVENT_DEDUP_CAPACITY, HEALTH_INTERVAL_MS};
use vstd::prelude::*;

verus! {

/// A worker that is not known, or that speaks on another connection than its current
/// one, changes nothing.
pub proof fn law_stale_session_changes_nothing(
    t: Table,
    connection_id: u64,
    instance_id: Text,
    event: sfu::EventView,
    result: sfu::CommandResultView,
    now: Instant,
)
    requires
        t.connection(instance_id) != Some(connection_id),
    ensures
        ({
            let (u, answer) = t.handle_sfu_input(
                sfu::InputView::Event { connection_id, instance_id, event },
            );
            u == t && answer is Err
        }),
        ({
            let (u, answer) = t.handle_sfu_input(
                sfu::InputView::CommandResult { connection_id, instance_id, result, now },
            );
            u == t && answer is Err
        }),
        t.handle_sfu_input(sfu::InputView::Disconnected { connection_id, instance_id, now }) == (
            t,
            Ok::<(), Text>(()),
        ),
{
}

/// An event that is sent again is acknowledged again, and does nothing else.
pub proof fn law_event_is_handled_once(
    t: Table,
    connection_id: u64,
    instance_id: Text,
    event: sfu::EventView,
)
    requires
        t.inv(),
        t.connection(instance_id) == Some(connection_id),
        event.request_id != 0,
    ensures
        ({
            let input = sfu::InputView::Event { connection_id, instance_id, event };
            let u = t.handle_sfu_input(input).0;
            u.handle_sfu_input(input) == (
                u.with_action(
                    ActionView::Sfu(
                        OutputView::EventAck { connection_id, request_id: event.request_id },
                    ),
                ),
                Ok::<(), Text>(()),
            )
        }),
{
    let worker = t.workers[instance_id];
    if !worker.seen_events.contains(event.request_id) {
        let order = worker.seen_event_order;
        if order.push(event.request_id).len() > EVENT_DEDUP_CAPACITY {
            assert(order.push(event.request_id)[0] == order[0]);
            assert(order.contains(order[0]));
        }
        assert(worker.after_event(event.request_id).seen_events.contains(event.request_id));
    }
}

/// The result of a command counts once: when it comes again, it does nothing.
pub proof fn law_result_is_taken_once(
    t: Table,
    connection_id: u64,
    instance_id: Text,
    result: sfu::CommandResultView,
    now: Instant,
    later: Instant,
)
    requires
        t.inv(),
        t.connection(instance_id) == Some(connection_id),
        t.next_sfu_request_id < u64::MAX,
    ensures
        ({
            let u = t.handle_sfu_input(
                sfu::InputView::CommandResult { connection_id, instance_id, result, now },
            ).0;
            u.handle_sfu_input(
                sfu::InputView::CommandResult { connection_id, instance_id, result, now: later },
            ) == (u, Ok::<(), Text>(()))
        }),
{
    let id = result.request_id;
    if t.pending_commands.contains_key(id) {
        let u = t.acknowledged(id);
        match t.pending_commands[id] {
            Pending::UpgradeJoin { instance_id: expected, join } => {
                let reason = model::failure_reason(result.result);
                lemma_abort_upgrade_forgets(u, join.room_id, reason, id);
                upgrades::lemma_abort_upgrade_rooms(u, join.room_id, reason);
            },
            _ => {},
        }
    }
}

/// The end of an upgrade gives out new numbers only.
proof fn lemma_abort_upgrade_forgets(t: Table, room_id: u64, reason: Text, id: u64)
    requires
        !t.pending_commands.contains_key(id),
        id < t.next_sfu_request_id,
    ensures
        !t.abort_upgrade(room_id, reason).0.pending_commands.contains_key(id),
{
    if t.rooms.contains_key(room_id) && t.rooms[room_id].upgrade is Some
        && t.rooms[room_id].assigned_instance is Some {
        let room = t.rooms[room_id];
        let upgrade = room.upgrade->0;
        let instance_id = room.assigned_instance->0;
        let back = Room {
            mode: RoomMode::P2p,
            assigned_instance: None,
            upgrade: None,
            ..room.without_member(upgrade.joining_client_id)
        };
        lemma_leave_joined_forgets(
            t.with_room(room_id, back).released(instance_id, room_id, 3),
            instance_id,
            t.connection(instance_id),
            room_id,
            upgrade.joined_clients,
            id,
        );
    }
}

proof fn lemma_leave_joined_forgets(
    t: Table,
    instance_id: Text,
    connection: Option<u64>,
    room_id: u64,
    joined: Seq<u64>,
    id: u64,
)
    requires
        !t.pending_commands.contains_key(id),
        id < t.next_sfu_request_id,
    ensures
        ({
            let u = t.leave_joined(instance_id, connection, room_id, joined).0;
            &&& !u.pending_commands.contains_key(id)
            &&& id < u.next_sfu_request_id
        }),
    decreases joined.len(),
{
    if joined.len() > 0 && connection is Some {
        lemma_leave_joined_forgets(
            t,
            instance_id,
            connection,
            room_id,
            joined.drop_last(),
            id,
        );
    }
}

/// A worker that loses its connection keeps its rooms for the reconnect grace.
pub proof fn law_lost_connection_has_grace(
    t: Table,
    connection_id: u64,
    instance_id: Text,
    now: Instant,
)
    requires
        t.connection(instance_id) == Some(connection_id),
    ensures
        ({
            let u = t.handle_sfu_input(
                sfu::InputView::Disconnected { connection_id, instance_id, now },
            ).0;
            &&& u.rooms == t.rooms
            &&& u.actions == t.actions
            &&& u.pending_commands == t.pending_commands
            &&& u.connection(instance_id) is None
            &&& u.workers[instance_id].assigned_rooms == t.workers[instance_id].assigned_rooms
            &&& u.workers[instance_id].disconnect_deadline == Some(now.later(t.reconnect_grace))
        }),
{
}

/// Which of these rooms are there.
pub open spec fn known_rooms(t: Table, rooms: Seq<u64>) -> Seq<u64> {
    rooms.filter(is_known(t))
}

pub open spec fn is_known(t: Table) -> spec_fn(u64) -> bool {
    |r: u64| t.rooms.contains_key(r)
}

/// Whether an action sends the state of a room to a worker.
pub open spec fn is_sync_command(
    action: ActionView,
    connection_id: u64,
    room_id: u64,
    room: Room,
) -> bool {
    &&& action matches ActionView::Sfu(OutputView::Command { connection_id: to, command })
    &&& to == connection_id
    &&& command.command == CommandKindView::SyncRoom(
        SyncRoomView {
            room_id,
            assignment_epoch: room.assignment_epoch,
            members: room.projections(),
        },
    )
}

/// A known worker that registers again within its grace keeps its rooms. It is told so,
/// and is sent the state of each of its rooms, in ascending order, before anything else.
/// What it had not answered is still waited for.
pub proof fn law_resumed_worker_is_synchronized(
    t: Table,
    connection_id: u64,
    instance_id: Text,
    request_id: u64,
    capacity: sfu::Capacity,
)
    requires
        t.inv(),
        t.workers.contains_key(instance_id),
        t.workers[instance_id].connection_id is None,
        instance_id.len() > 0,
        request_id != 0,
        capacity.max_rooms != 0,
        capacity.max_clients != 0,
        t.next_sfu_request_id + t.workers[instance_id].assigned_rooms.len() < u64::MAX,
    ensures
        ({
            let worker = t.workers[instance_id];
            let u = t.handle_sfu_input(
                sfu::InputView::Register { connection_id, instance_id, request_id, capacity },
            ).0;
            let rooms = known_rooms(t, ord_map::in_order::<u64>(worker.assigned_rooms));
            let count = t.actions.len() + 1;
            &&& u.rooms == t.rooms
            &&& u.connection(instance_id) == Some(connection_id)
            &&& u.workers[instance_id].disconnect_deadline is None
            &&& u.workers[instance_id].assigned_rooms == worker.assigned_rooms
            &&& u.actions.len() == count + rooms.len()
            &&& u.actions.take(count as int) == t.actions.push(
                ActionView::Sfu(
                    OutputView::Registered {
                        connection_id,
                        request_id,
                        health_interval_ms: HEALTH_INTERVAL_MS,
                        resumed: true,
                    },
                ),
            )
            &&& forall|i: int|
                0 <= i < rooms.len() ==> is_sync_command(
                    #[trigger] u.actions[count + i],
                    connection_id,
                    rooms[i],
                    t.rooms[rooms[i]],
                )
            &&& forall|id: u64| #[trigger]
                t.pending_commands.contains_key(id) && !(t.pending_commands[id] is SyncRoom)
                    ==> u.pending_commands.contains_key(id) && u.pending_commands[id]
                    == t.pending_commands[id]
        }),
{
    let worker = t.workers[instance_id];
    let base = t.worker_connected(
        connection_id,
        instance_id,
        request_id,
        capacity,
    ).without_syncs(instance_id);
    let rooms = ord_map::in_order::<u64>(worker.assigned_rooms);
    ord_map::lemma_in_order::<u64>(worker.assigned_rooms);
    lemma_sync_rooms_sends(base, instance_id, connection_id, rooms);
    seqs::lemma_filter_same(rooms, is_known(base), is_known(t));
    assert forall|id: u64| #[trigger]
        t.pending_commands.contains_key(id) && !(t.pending_commands[id] is SyncRoom) implies {
        &&& base.pending_commands.contains_key(id)
        &&& base.pending_commands[id] == t.pending_commands[id]
        &&& id < t.next_sfu_request_id
    } by {}
}

pub proof fn lemma_sync_rooms_sends(t: Table, instance_id: Text, connection_id: u64, rooms: Seq<u64>)
    requires
        t.next_sfu_request_id + rooms.len() <= u64::MAX,
    ensures
        ({
            let u = t.sync_rooms(instance_id, connection_id, rooms);
            let known = known_rooms(t, rooms);
            let count = t.actions.len();
            &&& u.rooms == t.rooms
            &&& u.workers == t.workers
            &&& t.next_sfu_request_id <= u.next_sfu_request_id <= t.next_sfu_request_id
                + rooms.len()
            &&& u.actions.len() == count + known.len()
            &&& u.actions.take(count as int) == t.actions
            &&& forall|i: int|
                0 <= i < known.len() ==> is_sync_command(
                    #[trigger] u.actions[count + i],
                    connection_id,
                    known[i],
                    t.rooms[known[i]],
                )
            &&& forall|id: u64| #[trigger]
                t.pending_commands.contains_key(id) && id < t.next_sfu_request_id
                    ==> u.pending_commands.contains_key(id) && u.pending_commands[id]
                    == t.pending_commands[id]
        }),
    decreases rooms.len(),
{
    reveal(Seq::filter);
    let count = t.actions.len();
    if rooms.len() == 0 {
        assert(t.actions.take(count as int) =~= t.actions);
    } else {
        let front = rooms.drop_last();
        let r = rooms.last();
        lemma_sync_rooms_sends(t, instance_id, connection_id, front);
        let v = t.sync_rooms(instance_id, connection_id, front);
        let u = t.sync_rooms(instance_id, connection_id, rooms);
        let before = known_rooms(t, front);
        let known = known_rooms(t, rooms);
        assert(u.actions.take(count as int) =~= v.actions.take(count as int));
        assert forall|i: int| 0 <= i < known.len() implies is_sync_command(
            #[trigger] u.actions[count + i],
            connection_id,
            known[i],
            t.rooms[known[i]],
        ) by {
            if i < before.len() {
                assert(u.actions[count + i] == v.actions[count + i]);
                assert(known[i] == before[i]);
            }
        }
    }
}

/// Once a worker has taken the state of a room, it is sent again, under their old
/// numbers, the commands for the room that it had not answered.
pub proof fn law_synchronized_room_is_replayed(
    t: Table,
    connection_id: u64,
    instance_id: Text,
    request_id: u64,
    room_id: u64,
    assignment_epoch: u64,
    replay: Seq<CommandView>,
    now: Instant,
)
    requires
        t.connection(instance_id) == Some(connection_id),
        t.pending_commands.contains_key(request_id),
        t.pending_commands[request_id] == (Pending::SyncRoom {
            instance_id,
            room_id,
            assignment_epoch,
            replay,
        }),
    ensures
        ({
            let (u, answer) = t.handle_sfu_input(
                upgrades::result_input(
                    connection_id,
                    instance_id,
                    request_id,
                    Ok(CommandOk::RoomSynced(sfu::RoomSynced { room_id, assignment_epoch })),
                    now,
                ),
            );
            let count = t.actions.len();
            &&& answer is Ok
            &&& u.rooms == t.rooms
            &&& u.pending_commands == t.pending_commands.remove(request_id)
            &&& u.actions.len() == count + replay.len()
            &&& u.actions.take(count as int) == t.actions
            &&& forall|i: int|
                0 <= i < replay.len() ==> #[trigger] u.actions[count + i] == ActionView::Sfu(
                    OutputView::Command { connection_id, command: replay[i] },
                )
        }),
{
    let u = t.handle_sfu_input(
        upgrades::result_input(
            connection_id,
            instance_id,
            request_id,
            Ok(CommandOk::RoomSynced(sfu::RoomSynced { room_id, assignment_epoch })),
            now,
        ),
    ).0;
    assert(u.actions.take(t.actions.len() as int) =~= t.actions);
}

/// A worker that does not take the state of a room has lost it: the room has failed.
pub proof fn law_refused_synchronization_fails_the_room(
    t: Table,
    connection_id: u64,
    instance_id: Text,
    request_id: u64,
    room_id: u64,
    assignment_epoch: u64,
    replay: Seq<CommandView>,
    error: sfu::ErrorView,
    now: Instant,
)
    requires
        t.connection(instance_id) == Some(connection_id),
        t.rooms.contains_key(room_id),
        t.pending_commands.contains_key(request_id),
        t.pending_commands[request_id] == (Pending::SyncRoom {
            instance_id,
            room_id,
            assignment_epoch,
            replay,
        }),
    ensures
        ({
            let (u, answer) = t.handle_sfu_input(
                upgrades::result_input(connection_id, instance_id, request_id, Err(error), now),
            );
            &&& answer is Ok
            &&& u.rooms == t.rooms.insert(
                room_id,
                Room { mode: RoomMode::Failed, ..t.rooms[room_id] },
            )
            &&& u.workers == t.workers
            &&& u.actions == t.actions.push(
                ActionView::RoomFailed {
                    room_id,
                    clients: t.rooms[room_id].clients(),
                    reason: "WORKER_UNAVAILABLE"@,
                },
            )
        }),
{
}

/// What is replayed for a room are the commands for it that the worker was sent and has
/// not answered, but for synchronizations, in the order in which they were given out.
pub proof fn law_replay_is_complete_and_in_order(t: Table, instance_id: Text, room_id: u64)
    requires
        t.inv(),
    ensures
        forall|command: CommandView| #[trigger]
            t.replay(instance_id, room_id).contains(command) <==> {
                let id = command.request_id;
                &&& t.pending_commands.contains_key(id)
                &&& t.unacknowledged_commands[id] == command
                &&& t.command_workers[id] == instance_id
                &&& !(t.pending_commands[id] is SyncRoom)
                &&& model::command_room(command) == room_id
            },
        forall|i: int, j: int|
            0 <= i < j < t.replay(instance_id, room_id).len() ==> (#[trigger] t.replay(
                instance_id,
                room_id,
            )[i]).request_id < (#[trigger] t.replay(instance_id, room_id)[j]).request_id,
{
    let p = |id: u64| t.to_replay(id, instance_id, room_id);
    let f = |id: u64| t.unacknowledged_commands[id];
    let all = ord_map::in_order::<u64>(t.command_workers.dom());
    ord_map::lemma_in_order::<u64>(t.command_workers.dom());
    seqs::lemma_filter_contains(all, p);
    lemma_filter_ascends(all, p);
    let ids = all.filter(p);
    let replay = t.replay(instance_id, room_id);
    assert(replay =~= ids.map_values(f));
    assert forall|i: int| 0 <= i < ids.len() implies {
        &&& t.pending_commands.contains_key(#[trigger] ids[i])
        &&& t.to_replay(ids[i], instance_id, room_id)
        &&& replay[i].request_id == ids[i]
    } by {
        assert(ids.contains(ids[i]));
        assert(t.command_workers.dom().contains(ids[i]));
        assert(t.pending_commands.dom().contains(ids[i]));
    }
    assert forall|command: CommandView| #[trigger] replay.contains(command) <==> {
        let id = command.request_id;
        &&& t.pending_commands.contains_key(id)
        &&& t.unacknowledged_commands[id] == command
        &&& t.command_workers[id] == instance_id
        &&& !(t.pending_commands[id] is SyncRoom)
        &&& model::command_room(command) == room_id
    } by {
        let id = command.request_id;
        if replay.contains(command) {
            let k = choose|k: int| 0 <= k < replay.len() && replay[k] == command;
            assert(ids[k] == id);
        }
        if t.pending_commands.contains_key(id) && t.unacknowledged_commands[id] == command
            && t.command_workers[id] == instance_id && !(t.pending_commands[id] is SyncRoom)
            && model::command_room(command) == room_id {
            assert(t.pending_commands.dom().contains(id));
            assert(t.unacknowledged_commands.dom().contains(id));
            assert(t.command_workers.dom().contains(id));
            assert(all.contains(id));
            assert(p(id));
            assert(ids.contains(id));
            let k = choose|k: int| 0 <= k < ids.len() && ids[k] == id;
            assert(replay[k] == command);
        }
    }
}

/// What a filter keeps of ascending numbers ascends.
pub proof fn lemma_filter_ascends(s: Seq<u64>, p: spec_fn(u64) -> bool)
    requires
        ord_map::ascending::<u64>(s),
    ensures
        forall|i: int, j: int|
            0 <= i < j < s.filter(p).len() ==> #[trigger] s.filter(p)[i] < #[trigger] s.filter(
                p,
            )[j],
    decreases s.len(),
{
    reveal(Seq::filter);
    if s.len() > 0 {
        let t = s.drop_last();
        assert forall|i: int, j: int| 0 <= i < j < t.len() implies <u64 as crate::key::Key>::before(
            #[trigger] t[i],
            #[trigger] t[j],
        ) by {
            assert(<u64 as crate::key::Key>::before(s[i], s[j]));
        }
        lemma_filter_ascends(t, p);
        seqs::lemma_filter_contains(t, p);
        let f = t.filter(p);
        assert forall|i: int| 0 <= i < f.len() implies #[trigger] f[i] < s.last() by {
            assert(f.contains(f[i]));
            let k = choose|k: int| 0 <= k < t.len() && t[k] == f[i];
            assert(<u64 as crate::key::Key>::before(s[k], s[s.len() - 1]));
        }
    }
}

} // verus!
