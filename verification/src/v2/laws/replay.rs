//! What a worker that comes back is sent again.

use super::workers;
use crate::ord_map;
use crate::seqs::Text;
use crate::sfu;
use crate::sfu::{CommandKindView, CommandView};
use crate::v2::model::{Pending, Table};
use crate::v2::{invariants, model};
use vstd::prelude::*;

verus! {

/// The room that a command names.
pub open spec fn room_named_by(command: CommandView) -> u64 {
    match command.command {
        CommandKindView::SyncRoom(sync) => sync.room_id,
        CommandKindView::Join(join) => join.room_id,
        CommandKindView::Leave(leave) => leave.room_id,
        CommandKindView::Signal(signal) => signal.room_id,
    }
}

/// Whether a command for a room was sent to a worker, is not answered, and is more than a
/// synchronization.
pub open spec fn is_unanswered(
    t: Table,
    instance_id: Text,
    room_id: u64,
    command: CommandView,
) -> bool {
    let id = command.request_id;
    &&& t.pending_commands.contains_key(id)
    &&& t.unacknowledged_commands[id] == command
    &&& t.command_workers[id] == instance_id
    &&& !(t.pending_commands[id] is SyncRoom)
    &&& room_named_by(command) == room_id
}

/// Whether the synchronization of a room with a worker is under way, after which exactly
/// the unanswered commands for the room are sent again, in the order of their numbers.
pub open spec fn will_replay(
    t: Table,
    u: Table,
    instance_id: Text,
    room_id: u64,
    request_id: u64,
) -> bool {
    &&& u.pending_commands.contains_key(request_id)
    &&& u.pending_commands[request_id] matches Pending::SyncRoom {
        instance_id: i,
        room_id: r,
        assignment_epoch,
        replay,
    }
    &&& i == instance_id
    &&& r == room_id
    &&& assignment_epoch == t.rooms[room_id].assignment_epoch
    &&& forall|command: CommandView| #[trigger]
        replay.contains(command) <==> is_unanswered(t, instance_id, room_id, command)
    &&& forall|a: int, b: int|
        0 <= a < b < replay.len() ==> (#[trigger] replay[a]).request_id < (
        #[trigger] replay[b]).request_id
}

/// A known worker that registers again is to get again, for each of its rooms, what it had
/// not answered: all of it, nothing else, and in order, once it has taken the state of the
/// room.
pub proof fn law_unanswered_commands_will_be_replayed(
    t: Table,
    connection_id: u64,
    instance_id: Text,
    request_id: u64,
    capacity: sfu::Capacity,
    room_id: u64,
)
    requires
        t.inv(),
        t.workers.contains_key(instance_id),
        instance_id.len() > 0,
        request_id != 0,
        capacity.max_rooms != 0,
        capacity.max_clients != 0,
        t.next_sfu_request_id + t.workers[instance_id].assigned_rooms.len() < u64::MAX,
        t.workers[instance_id].assigned_rooms.contains(room_id),
        t.rooms.contains_key(room_id),
    ensures
        exists|id: u64| #[trigger]
            will_replay(
                t,
                t.handle_sfu_input(
                    sfu::InputView::Register { connection_id, instance_id, request_id, capacity },
                ).0,
                instance_id,
                room_id,
                id,
            ),
{
    let u = t.worker_connected(connection_id, instance_id, request_id, capacity);
    let base = u.without_syncs(instance_id);
    let rooms = ord_map::in_order::<u64>(base.workers[instance_id].assigned_rooms);
    assert(base.workers[instance_id].assigned_rooms == t.workers[instance_id].assigned_rooms);
    ord_map::lemma_in_order::<u64>(base.workers[instance_id].assigned_rooms);
    ord_map::lemma_ascending_no_duplicates::<u64>(rooms);
    assert(rooms.contains(room_id));
    invariants::lemma_register_parts(t, connection_id, instance_id, request_id, capacity);
    rooms.unique_seq_to_set();
    assert(rooms.to_set() =~= t.workers[instance_id].assigned_rooms) by {
        assert forall|r: u64| rooms.to_set().contains(r) <==> t.workers[
            instance_id
        ].assigned_rooms.contains(r) by {
            assert(rooms.contains(r) <==> t.workers[instance_id].assigned_rooms.contains(r));
        }
    }
    lemma_sync_records(base, instance_id, connection_id, rooms, room_id);
    let v = base.sync_rooms(instance_id, connection_id, rooms);
    let id = choose|id: u64| #[trigger] will_replay(base, v, instance_id, room_id, id);
    assert forall|command: CommandView| is_unanswered(base, instance_id, room_id, command)
        <==> is_unanswered(t, instance_id, room_id, command) by {
        let k = command.request_id;
        assert(base.pending_commands.contains_key(k) <==> t.pending_commands.contains_key(k)
            && !u.is_sync_with(k, instance_id));
        assert(t.pending_commands.dom().contains(k) <==> t.command_workers.dom().contains(k));
        assert(t.pending_commands.dom().contains(k) <==> t.unacknowledged_commands.dom().contains(
            k,
        ));
    }
    assert(v == t.handle_sfu_input(
        sfu::InputView::Register { connection_id, instance_id, request_id, capacity },
    ).0);
    assert(will_replay(t, v, instance_id, room_id, id));
}

proof fn lemma_sync_records(
    t: Table,
    instance_id: Text,
    connection_id: u64,
    rooms: Seq<u64>,
    room_id: u64,
)
    requires
        t.inv(),
        t.next_sfu_request_id + rooms.len() < u64::MAX,
        t.rooms.contains_key(room_id),
        rooms.no_duplicates(),
    ensures
        ({
            let u = t.sync_rooms(instance_id, connection_id, rooms);
            &&& u.inv()
            &&& u.rooms == t.rooms
            &&& t.next_sfu_request_id <= u.next_sfu_request_id <= t.next_sfu_request_id
                + rooms.len()
            &&& forall|id: u64| #[trigger]
                u.pending_commands.contains_key(id) && !t.pending_commands.contains_key(id)
                    ==> u.pending_commands[id] is SyncRoom
            &&& forall|id: u64| #[trigger]
                t.pending_commands.contains_key(id) ==> {
                    &&& u.pending_commands.contains_key(id)
                    &&& u.pending_commands[id] == t.pending_commands[id]
                    &&& u.unacknowledged_commands[id] == t.unacknowledged_commands[id]
                    &&& u.command_workers[id] == t.command_workers[id]
                }
            &&& rooms.contains(room_id) ==> exists|id: u64| #[trigger]
                will_replay(t, u, instance_id, room_id, id)
        }),
    decreases rooms.len(),
{
    if rooms.len() > 0 {
        let front = rooms.drop_last();
        let r = rooms.last();
        assert(rooms[rooms.len() - 1] == r);
        lemma_sync_records(t, instance_id, connection_id, front, room_id);
        let v = t.sync_rooms(instance_id, connection_id, front);
        let u = t.sync_rooms(instance_id, connection_id, rooms);
        invariants::lemma_sync_rooms(v, instance_id, connection_id, seq![r]);
        assert(seq![r].drop_last() =~= Seq::empty());
        reveal_with_fuel(Table::sync_rooms, 2);
        assert(v.sync_rooms(instance_id, connection_id, seq![r]) == u);
        let n = v.next_sfu_request_id;
        assert(!v.pending_commands.contains_key(n));
        if r == room_id {
            workers::law_replay_is_complete_and_in_order(v, instance_id, room_id);
            let replay = v.replay(instance_id, room_id);
            assert forall|command: CommandView| #[trigger]
                replay.contains(command) <==> is_unanswered(
                    t,
                    instance_id,
                    room_id,
                    command,
                ) by {
                let id = command.request_id;
                assert(replay.contains(command) <==> {
                    &&& v.pending_commands.contains_key(id)
                    &&& v.unacknowledged_commands[id] == command
                    &&& v.command_workers[id] == instance_id
                    &&& !(v.pending_commands[id] is SyncRoom)
                    &&& model::command_room(command) == room_id
                });
                if t.pending_commands.contains_key(id) {
                    assert(v.pending_commands.contains_key(id));
                }
            }
            assert(will_replay(t, u, instance_id, room_id, n));
        } else if rooms.contains(room_id) {
            let k = choose|k: int| 0 <= k < rooms.len() && rooms[k] == room_id;
            assert(front[k] == room_id);
            let id = choose|id: u64| #[trigger] will_replay(t, v, instance_id, room_id, id);
            assert(id != n);
            assert(will_replay(t, u, instance_id, room_id, id));
        }
    }
}

} // verus!
