//! Counters that never fall, and what is to be done that is never forgotten.

use crate::ord_map;
use crate::seqs::Text;
use crate::sfu;
use crate::time::Instant;
use crate::v2::model;
use crate::v2::model::{Pending, Room, Table};
use crate::v2::{RoomMode, SendResultView};
use vstd::prelude::*;

verus! {

impl Table {
    /// The other table can come after this one: what was to be done is still the
    /// beginning of what is to be done, no number of a command or of a stay has become
    /// smaller, and no epoch of a room that is still there has either.
    pub open spec fn leads_to(self, later: Table) -> bool {
        &&& self.actions.is_prefix_of(later.actions)
        &&& self.next_sfu_request_id <= later.next_sfu_request_id
        &&& forall|k: (u64, u64)| #[trigger]
            self.lifecycle_ids.contains_key(k) ==> later.lifecycle_ids.contains_key(k)
                && self.lifecycle_ids[k] <= later.lifecycle_ids[k]
        &&& forall|r: u64| #[trigger]
            later.rooms.contains_key(r) && self.rooms.contains_key(r)
                ==> self.rooms[r].signal_epoch <= later.rooms[r].signal_epoch
                && self.rooms[r].assignment_epoch <= later.rooms[r].assignment_epoch
        &&& self.reconnect_grace == later.reconnect_grace
        &&& self.downgrade_dwell == later.downgrade_dwell
    }

    /// The other table can come after this one, and has no room that this one lacks.
    pub open spec fn leads_on_to(self, later: Table) -> bool {
        &&& self.leads_to(later)
        &&& later.rooms.dom().subset_of(self.rooms.dom())
    }
}

/// A message of an epoch that has been left behind is dropped ever after, as long as
/// the room exists.
pub proof fn law_retired_epochs_stay_retired(
    t: Table,
    later: Table,
    room_id: u64,
    client_id: u64,
    signal_epoch: u64,
    message: Text,
)
    requires
        t.leads_to(later),
        t.rooms.contains_key(room_id),
        later.rooms.contains_key(room_id),
        signal_epoch < t.rooms[room_id].signal_epoch,
    ensures
        later.send(room_id, client_id, signal_epoch, message) == (
            later,
            Ok::<SendResultView, Text>(SendResultView::Dropped),
        ),
{
}

proof fn lemma_transitive(a: Table, b: Table, c: Table)
    requires
        a.leads_on_to(b),
        b.leads_on_to(c),
    ensures
        a.leads_on_to(c),
{
    assert forall|i: int| 0 <= i < a.actions.len() implies a.actions[i] == c.actions[i] by {
        assert(a.actions[i] == b.actions[i]);
    }
    assert forall|r: u64| #[trigger] c.rooms.contains_key(r) && a.rooms.contains_key(r) implies {
        &&& a.rooms[r].signal_epoch <= c.rooms[r].signal_epoch
        &&& a.rooms[r].assignment_epoch <= c.rooms[r].assignment_epoch
    } by {
        assert(c.rooms.dom().contains(r));
        assert(b.rooms.dom().contains(r));
        assert(b.rooms.contains_key(r));
    }
}

proof fn lemma_leave_joined(
    t: Table,
    instance_id: Text,
    connection: Option<u64>,
    room_id: u64,
    joined: Seq<u64>,
)
    ensures
        t.leads_on_to(t.leave_joined(instance_id, connection, room_id, joined).0),
    decreases joined.len(),
{
    if joined.len() > 0 && connection is Some {
        lemma_leave_joined(t, instance_id, connection, room_id, joined.drop_last());
        lemma_transitive(
            t,
            t.leave_joined(instance_id, connection, room_id, joined.drop_last()).0,
            t.leave_joined(instance_id, connection, room_id, joined).0,
        );
    }
}

proof fn lemma_leave_all(
    t: Table,
    instance_id: Text,
    connection: Option<u64>,
    room_id: u64,
    assignment_epoch: u64,
    members: Seq<sfu::MemberProjection>,
)
    ensures
        t.leads_on_to(t.leave_all(instance_id, connection, room_id, assignment_epoch, members)),
    decreases members.len(),
{
    if members.len() > 0 && connection is Some {
        let front = members.drop_last();
        lemma_leave_all(t, instance_id, connection, room_id, assignment_epoch, front);
        lemma_transitive(
            t,
            t.leave_all(instance_id, connection, room_id, assignment_epoch, front),
            t.leave_all(instance_id, connection, room_id, assignment_epoch, members),
        );
    }
}

pub proof fn lemma_abort_upgrade(t: Table, room_id: u64, reason: Text)
    ensures
        t.leads_on_to(t.abort_upgrade(room_id, reason).0),
{
    if t.rooms.contains_key(room_id) && t.rooms[room_id].upgrade is Some
        && t.rooms[room_id].assigned_instance is Some {
        let room = t.rooms[room_id];
        let upgrade = room.upgrade->0;
        let instance_id = room.assigned_instance->0;
        let back = Room {
            mode: RoomMode::P2p,
            assigned_instance: None,
            upgrade: None,
            ..room.without_member(upgrade.joining_client_id)
        };
        let u = t.with_room(room_id, back).released(instance_id, room_id, 3);
        let connection = t.connection(instance_id);
        lemma_leave_joined(u, instance_id, connection, room_id, upgrade.joined_clients);
        let v = u.leave_joined(instance_id, connection, room_id, upgrade.joined_clients).0;
        assert(t.leads_on_to(u));
        lemma_transitive(t, u, v);
        lemma_transitive(t, v, t.abort_upgrade(room_id, reason).0);
    }
}

proof fn lemma_commit_downgrade(t: Table, room_id: u64)
    ensures
        t.leads_on_to(t.commit_downgrade(room_id).0),
{
    if t.rooms.contains_key(room_id) && t.rooms[room_id].members.dom().len() > 0
        && t.rooms[room_id].assigned_instance is Some {
        let old = t.rooms[room_id];
        let instance_id = old.assigned_instance->0;
        let room = Room {
            mode: RoomMode::P2p,
            signal_epoch: model::increment(old.signal_epoch),
            downgrade_deadline: None,
            assigned_instance: None,
            ..old
        };
        let u = t.with_room(room_id, room.with_initiator(Some(old.clients()[0]))).released(
            instance_id,
            room_id,
            old.members.dom().len(),
        );
        let connection = t.connection(instance_id);
        lemma_leave_all(
            u,
            instance_id,
            connection,
            room_id,
            old.assignment_epoch,
            old.projections(),
        );
        let v = u.leave_all(
            instance_id,
            connection,
            room_id,
            old.assignment_epoch,
            old.projections(),
        );
        assert(t.leads_on_to(u));
        lemma_transitive(t, u, v);
        lemma_transitive(t, v, t.commit_downgrade(room_id).0);
    }
}

/// An admission leads from one table to the next.
pub proof fn law_admission_leads_on(
    t: Table,
    authority_request_id: u64,
    now: Instant,
    room_id: u64,
    client_id: u64,
    token: Text,
)
    ensures
        t.leads_to(t.admit_client(authority_request_id, now, room_id, client_id, token).0),
{
}

/// What a browser does leads from one table to the next.
pub proof fn law_browsers_lead_on(
    t: Table,
    request_id: u64,
    now: Instant,
    room_id: u64,
    client_id: u64,
    signal_epoch: u64,
    text: Text,
)
    ensures
        t.leads_on_to(t.register(room_id, client_id, text).0),
        t.leads_on_to(t.deregister(now, room_id, client_id)),
        t.leads_on_to(t.send(room_id, client_id, signal_epoch, text).0),
        t.leads_on_to(t.remove(request_id, room_id, client_id, text).0),
{
}

proof fn lemma_sync_rooms(t: Table, instance_id: Text, connection_id: u64, rooms: Seq<u64>)
    ensures
        t.leads_on_to(t.sync_rooms(instance_id, connection_id, rooms)),
    decreases rooms.len(),
{
    if rooms.len() > 0 {
        lemma_sync_rooms(t, instance_id, connection_id, rooms.drop_last());
        lemma_transitive(
            t,
            t.sync_rooms(instance_id, connection_id, rooms.drop_last()),
            t.sync_rooms(instance_id, connection_id, rooms),
        );
    }
}

/// What a worker does leads from one table to the next.
pub proof fn law_workers_lead_on(t: Table, input: sfu::InputView)
    ensures
        t.leads_on_to(t.handle_sfu_input(input).0),
{
    match input {
        sfu::InputView::Register { connection_id, instance_id, request_id, capacity } => {
            let u = t.worker_connected(
                connection_id,
                instance_id,
                request_id,
                capacity,
            ).without_syncs(instance_id);
            assert(t.leads_on_to(u));
            let rooms = ord_map::in_order::<u64>(u.workers[instance_id].assigned_rooms);
            lemma_sync_rooms(u, instance_id, connection_id, rooms);
            lemma_transitive(t, u, u.sync_rooms(instance_id, connection_id, rooms));
        },
        sfu::InputView::CommandResult { connection_id, instance_id, result, now } => {
            let u = t.acknowledged(result.request_id);
            assert(t.leads_on_to(u));
            match t.pending_commands[result.request_id] {
                Pending::UpgradeJoin { instance_id: expected, join } => {
                    let reason = model::failure_reason(result.result);
                    lemma_abort_upgrade(u, join.room_id, reason);
                    lemma_transitive(t, u, u.abort_upgrade(join.room_id, reason).0);
                },
                _ => {},
            }
        },
        _ => {},
    }
}

pub proof fn lemma_lose_room(t: Table, room_id: u64)
    ensures
        t.leads_on_to(t.lose_room(room_id)),
{
    lemma_abort_upgrade(t, room_id, "WORKER_UNAVAILABLE"@);
}

proof fn lemma_lose_rooms(t: Table, rooms: Seq<u64>)
    ensures
        t.leads_on_to(t.lose_rooms(rooms)),
    decreases rooms.len(),
{
    if rooms.len() > 0 {
        lemma_lose_rooms(t, rooms.drop_last());
        let u = t.lose_rooms(rooms.drop_last());
        lemma_lose_room(u, rooms.last());
        lemma_transitive(t, u, u.lose_room(rooms.last()));
    }
}

pub proof fn lemma_expire_workers(t: Table, instances: Seq<Text>)
    ensures
        t.leads_on_to(t.expire_workers(instances)),
    decreases instances.len(),
{
    if instances.len() > 0 {
        lemma_expire_workers(t, instances.drop_last());
        let u = t.expire_workers(instances.drop_last());
        let i = instances.last();
        let rooms = if u.workers.contains_key(i) {
            ord_map::in_order::<u64>(u.workers[i].assigned_rooms)
        } else {
            Seq::empty()
        };
        lemma_lose_rooms(u, rooms);
        lemma_transitive(u, u.lose_rooms(rooms), u.expire_worker(i));
        lemma_transitive(t, u, u.expire_worker(i));
    }
}

/// What time brings to one room leads from one table to the next.
pub proof fn law_single_room_leads_on(t: Table, now: Instant, room_id: u64)
    ensures
        t.leads_on_to(t.sweep_room(now, room_id).0),
{
    lemma_commit_downgrade(t, room_id);
}

pub proof fn lemma_sweep_rooms(t: Table, now: Instant, rooms: Seq<u64>)
    ensures
        t.leads_on_to(t.sweep_rooms(now, rooms).0),
    decreases rooms.len(),
{
    if rooms.len() > 0 {
        lemma_sweep_rooms(t, now, rooms.drop_last());
        let u = t.sweep_rooms(now, rooms.drop_last()).0;
        law_single_room_leads_on(u, now, rooms.last());
        lemma_transitive(t, u, u.sweep_room(now, rooms.last()).0);
    }
}

/// What time brings leads from one table to the next.
pub proof fn law_time_leads_on(t: Table, now: Instant)
    ensures
        t.leads_on_to(t.handle_timeout(now).0),
{
    let u = t.expire_workers(t.expired_workers(now));
    let rooms = ord_map::in_order::<u64>(u.rooms.dom());
    lemma_expire_workers(t, t.expired_workers(now));
    lemma_sweep_rooms(u, now, rooms);
    lemma_transitive(t, u, t.handle_timeout(now).0);
}

} // verus!
