//! Who is told to offer, and when.

use crate::ord_map;
use crate::seqs::Text;
use crate::sfu;
use crate::time::Instant;
use crate::v2::model::{Pending, Room, Table};
use crate::v2::{model, ActionView, Promotion, RoomMode};
use vstd::prelude::*;

verus! {

impl Table {
    /// The other table has the actions of this one and further ones, of which none
    /// promotes anybody.
    pub open spec fn adds_no_promotion(self, later: Table) -> bool {
        &&& self.actions.is_prefix_of(later.actions)
        &&& forall|k: int|
            self.actions.len() <= k < later.actions.len() ==> !(#[trigger] later.actions[k] is
                Promoted)
    }
}

/// Only the leave of a member from its worker promotes anybody by an action: the one,
/// connected, that is left of two members, under the signal epoch of the room.
pub proof fn law_only_a_leave_promotes(t: Table, input: sfu::InputView, k: int, p: Promotion)
    requires
        t.inv(),
        t.actions.len() <= k < t.handle_sfu_input(input).0.actions.len(),
        t.handle_sfu_input(input).0.actions[k] == ActionView::Promoted(p),
    ensures
        ({
            let room = t.rooms[p.room_id];
            let after = t.handle_sfu_input(input).0.rooms[p.room_id];
            &&& t.rooms.contains_key(p.room_id)
            &&& room.members.dom().len() == 2
            &&& room.has(p.client_id)
            &&& room.members[p.client_id].registered
            &&& after.members.dom() == set![p.client_id]
            &&& after.members[p.client_id].is_initiator
            &&& after.signal_epoch == p.signal_epoch
        }),
{
    match input {
        sfu::InputView::Register { connection_id, instance_id, request_id, capacity } => {
            let u = t.worker_connected(
                connection_id,
                instance_id,
                request_id,
                capacity,
            ).without_syncs(instance_id);
            assert(t.adds_no_promotion(u));
            let rooms = ord_map::in_order::<u64>(u.workers[instance_id].assigned_rooms);
            lemma_sync_rooms(u, instance_id, connection_id, rooms);
            lemma_transitive(t, u, u.sync_rooms(instance_id, connection_id, rooms));
        },
        sfu::InputView::CommandResult { connection_id, instance_id, result, now } => {
            let u = t.acknowledged(result.request_id);
            if t.connection(instance_id) == Some(connection_id) && t.pending_commands.contains_key(
                result.request_id,
            ) {
                match t.pending_commands[result.request_id] {
                    Pending::UpgradeJoin { instance_id: expected, join } => {
                        lemma_abort_upgrade(
                            u,
                            join.room_id,
                            model::failure_reason(result.result),
                        );
                    },
                    Pending::SfuLeave { room_id, client_id, .. } => {
                        if t.rooms.contains_key(room_id) {
                            lemma_left(t.rooms[room_id], client_id, room_id);
                        }
                    },
                    _ => {},
                }
            }
        },
        _ => {},
    }
}

/// The one that is left of a room from which a member was removed.
proof fn lemma_left(before: Room, client_id: u64, room_id: u64)
    requires
        before.members.dom().finite(),
    ensures
        ({
            let room = Room { pending_leave: None, ..before };
            let left = room.without_member(client_id);
            left.promotion(room_id) matches Some(p) ==> {
                &&& p.room_id == room_id
                &&& left.has(p.client_id)
                &&& left.members[p.client_id].registered
                &&& left.promoted().members.dom() == set![p.client_id]
                &&& left.promoted().members[p.client_id].is_initiator
                &&& before.has(client_id) ==> before.members.dom().len() == 2
                &&& p.signal_epoch == before.signal_epoch
            }
        }),
{
    let room = Room { pending_leave: None, ..before };
    let left = room.without_member(client_id);
    if left.promotion(room_id) is Some {
        let p = left.promotion(room_id)->0;
        assert(left.members.dom() =~= before.members.dom().remove(client_id));
        ord_map::lemma_in_order::<u64>(left.members.dom());
        assert(left.clients().contains(p.client_id));
        assert(left.members.dom().contains(p.client_id));
        vstd::set_lib::lemma_len_subset(set![p.client_id], left.members.dom());
        assert forall|c: u64| left.members.dom().contains(c) implies c == p.client_id by {
            let rest = left.members.dom().remove(p.client_id);
            assert(rest.len() == 0);
            assert(!rest.contains(c));
        }
        assert(left.promoted().members.dom() =~= set![p.client_id]);
    }
}

/// Nothing that browsers and authorities ask for promotes anybody by an action, nor does
/// the clock: their promotions are what they return.
pub proof fn law_nothing_else_adds_a_promotion(
    t: Table,
    request_id: u64,
    now: Instant,
    room_id: u64,
    client_id: u64,
    signal_epoch: u64,
    text: Text,
)
    ensures
        t.adds_no_promotion(t.admit_client(request_id, now, room_id, client_id, text).0),
        t.adds_no_promotion(t.register(room_id, client_id, text).0),
        t.adds_no_promotion(t.deregister(now, room_id, client_id)),
        t.adds_no_promotion(t.send(room_id, client_id, signal_epoch, text).0),
        t.adds_no_promotion(t.remove(request_id, room_id, client_id, text).0),
        t.adds_no_promotion(t.handle_timeout(now).0),
{
    let gone = t.expired_workers(now);
    lemma_expire_workers(t, gone);
    let u = t.expire_workers(gone);
    let rooms = ord_map::in_order::<u64>(u.rooms.dom());
    lemma_sweep_rooms(u, now, rooms);
    lemma_transitive(t, u, t.handle_timeout(now).0);
}

proof fn lemma_transitive(a: Table, b: Table, c: Table)
    requires
        a.adds_no_promotion(b),
        b.adds_no_promotion(c),
    ensures
        a.adds_no_promotion(c),
{
    assert forall|i: int| 0 <= i < a.actions.len() implies a.actions[i] == c.actions[i] by {
        assert(a.actions[i] == b.actions[i]);
    }
    assert forall|k: int| a.actions.len() <= k < c.actions.len() implies !(
    #[trigger] c.actions[k] is Promoted) by {
        if k < b.actions.len() {
            assert(b.actions[k] == c.actions[k]);
        }
    }
}

proof fn lemma_sync_rooms(t: Table, instance_id: Text, connection_id: u64, rooms: Seq<u64>)
    ensures
        t.adds_no_promotion(t.sync_rooms(instance_id, connection_id, rooms)),
    decreases rooms.len(),
{
    if rooms.len() > 0 {
        lemma_sync_rooms(t, instance_id, connection_id, rooms.drop_last());
        lemma_transitive(
            t,
            t.sync_rooms(instance_id, connection_id, rooms.drop_last()),
            t.sync_rooms(instance_id, connection_id, rooms),
        );
    }
}

proof fn lemma_leave_joined(
    t: Table,
    instance_id: Text,
    connection: Option<u64>,
    room_id: u64,
    joined: Seq<u64>,
)
    ensures
        t.adds_no_promotion(t.leave_joined(instance_id, connection, room_id, joined).0),
    decreases joined.len(),
{
    if joined.len() > 0 && connection is Some {
        lemma_leave_joined(t, instance_id, connection, room_id, joined.drop_last());
        lemma_transitive(
            t,
            t.leave_joined(instance_id, connection, room_id, joined.drop_last()).0,
            t.leave_joined(instance_id, connection, room_id, joined).0,
        );
    }
}

proof fn lemma_leave_all(
    t: Table,
    instance_id: Text,
    connection: Option<u64>,
    room_id: u64,
    assignment_epoch: u64,
    members: Seq<sfu::MemberProjection>,
)
    ensures
        t.adds_no_promotion(
            t.leave_all(instance_id, connection, room_id, assignment_epoch, members),
        ),
    decreases members.len(),
{
    if members.len() > 0 && connection is Some {
        let front = members.drop_last();
        lemma_leave_all(t, instance_id, connection, room_id, assignment_epoch, front);
        lemma_transitive(
            t,
            t.leave_all(instance_id, connection, room_id, assignment_epoch, front),
            t.leave_all(instance_id, connection, room_id, assignment_epoch, members),
        );
    }
}

proof fn lemma_abort_upgrade(t: Table, room_id: u64, reason: Text)
    ensures
        t.adds_no_promotion(t.abort_upgrade(room_id, reason).0),
{
    if t.rooms.contains_key(room_id) && t.rooms[room_id].upgrade is Some
        && t.rooms[room_id].assigned_instance is Some {
        let room = t.rooms[room_id];
        let upgrade = room.upgrade->0;
        let instance_id = room.assigned_instance->0;
        let back = Room {
            mode: RoomMode::P2p,
            assigned_instance: None,
            upgrade: None,
            ..room.without_member(upgrade.joining_client_id)
        };
        let u = t.with_room(room_id, back).released(instance_id, room_id, 3);
        let connection = t.connection(instance_id);
        lemma_leave_joined(u, instance_id, connection, room_id, upgrade.joined_clients);
    }
}

proof fn lemma_commit_downgrade(t: Table, room_id: u64)
    ensures
        t.adds_no_promotion(t.commit_downgrade(room_id).0),
{
    if t.rooms.contains_key(room_id) && t.rooms[room_id].members.dom().len() > 0
        && t.rooms[room_id].assigned_instance is Some {
        let old = t.rooms[room_id];
        let instance_id = old.assigned_instance->0;
        let room = Room {
            mode: RoomMode::P2p,
            signal_epoch: model::increment(old.signal_epoch),
            downgrade_deadline: None,
            assigned_instance: None,
            ..old
        };
        let u = t.with_room(room_id, room.with_initiator(Some(old.clients()[0]))).released(
            instance_id,
            room_id,
            old.members.dom().len(),
        );
        lemma_leave_all(
            u,
            instance_id,
            t.connection(instance_id),
            room_id,
            old.assignment_epoch,
            old.projections(),
        );
    }
}

proof fn lemma_lose_rooms(t: Table, rooms: Seq<u64>)
    ensures
        t.adds_no_promotion(t.lose_rooms(rooms)),
    decreases rooms.len(),
{
    if rooms.len() > 0 {
        lemma_lose_rooms(t, rooms.drop_last());
        let u = t.lose_rooms(rooms.drop_last());
        lemma_abort_upgrade(u, rooms.last(), "WORKER_UNAVAILABLE"@);
        assert(u.adds_no_promotion(u.lose_room(rooms.last())));
        lemma_transitive(t, u, u.lose_room(rooms.last()));
    }
}

proof fn lemma_expire_workers(t: Table, instances: Seq<Text>)
    ensures
        t.adds_no_promotion(t.expire_workers(instances)),
    decreases instances.len(),
{
    if instances.len() > 0 {
        lemma_expire_workers(t, instances.drop_last());
        let u = t.expire_workers(instances.drop_last());
        let i = instances.last();
        let rooms = if u.workers.contains_key(i) {
            ord_map::in_order::<u64>(u.workers[i].assigned_rooms)
        } else {
            Seq::empty()
        };
        lemma_lose_rooms(u, rooms);
        assert(u.expire_worker(i).actions == u.lose_rooms(rooms).actions);
        lemma_transitive(t, u, u.expire_worker(i));
    }
}

proof fn lemma_sweep_rooms(t: Table, now: Instant, rooms: Seq<u64>)
    ensures
        t.adds_no_promotion(t.sweep_rooms(now, rooms).0),
    decreases rooms.len(),
{
    if rooms.len() > 0 {
        lemma_sweep_rooms(t, now, rooms.drop_last());
        let u = t.sweep_rooms(now, rooms.drop_last()).0;
        lemma_commit_downgrade(u, rooms.last());
        lemma_transitive(t, u, u.sweep_room(now, rooms.last()).0);
    }
}

} // verus!
