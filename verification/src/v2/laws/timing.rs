//! What the clock does to a V2 room and to a worker.

use super::members::{is_connected, is_cut_off};
use super::{deadlines, dwell, news, progress, upgrades};
use crate::ord_map;
use crate::room::laws::clients::at_most;
use crate::seqs;
use crate::seqs::Text;
use crate::sfu;
use crate::sfu::{CommandKindView, LeaveReason};
use crate::time::Instant;
use crate::v2::model::{Member, Room, Table, Worker};
use crate::v2::{invariants, model, ActionView, PendingLeave, Promotion, RoomMode};
use vstd::prelude::*;

verus! {

/// Whether a member did not come back in time.
pub open spec fn is_late(member: Member, now: Instant) -> bool {
    member.reconnect_deadline matches Some(deadline) && deadline.nanos <= now.nanos
}

/// Whether a worker that has the room did not come back in time.
pub open spec fn is_abandoned(t: Table, now: Instant, room_id: u64) -> bool {
    exists|i: Text| #[trigger]
        t.workers.contains_key(i) && t.workers[i].assigned_rooms.contains(room_id) && (
        t.workers[i].disconnect_deadline matches Some(deadline) && deadline.nanos <= now.nanos)
}

proof fn lemma_spared(t: Table, now: Instant, room_id: u64)
    requires
        !is_abandoned(t, now, room_id),
    ensures
        t.spares(now, room_id),
{
}

/// Time takes from a direct room exactly the members that did not come back in time. With
/// the last one the room is gone. Where it took one and one is left, that one offers,
/// without what it had queued, and is promoted under the epoch of the room if it is
/// connected; in all other cases those that are left stay as they were.
#[verifier::rlimit(40)]
pub proof fn law_time_takes_late_members(t: Table, now: Instant, room_id: u64)
    requires
        t.inv(),
        !is_abandoned(t, now, room_id),
        t.rooms.contains_key(room_id),
        t.rooms[room_id].mode == RoomMode::P2p,
    ensures
        ({
            let room = t.rooms[room_id];
            let (u, promotions) = t.handle_timeout(now);
            let after = u.rooms[room_id];
            let took = exists|c: u64| #[trigger]
                room.members.contains_key(c) && is_late(room.members[c], now);
            &&& u.rooms.contains_key(room_id) <==> exists|c: u64| #[trigger]
                room.members.contains_key(c) && !is_late(room.members[c], now)
            &&& u.rooms.contains_key(room_id) ==> {
                &&& after == (Room { members: after.members, ..room })
                &&& forall|c: u64| #[trigger]
                    after.members.contains_key(c) <==> room.members.contains_key(c) && !is_late(
                        room.members[c],
                        now,
                    )
                &&& forall|c: u64| #[trigger]
                    after.members.contains_key(c) ==> after.members[c] == (if took {
                        Member {
                            is_initiator: true,
                            queued_messages: Seq::empty(),
                            ..room.members[c]
                        }
                    } else {
                        room.members[c]
                    })
            }
            &&& forall|p: Promotion|
                p.room_id == room_id ==> (#[trigger] promotions.contains(p) <==> took
                    && u.rooms.contains_key(room_id) && after.members.contains_key(p.client_id)
                    && room.members[p.client_id].registered && p.signal_epoch
                    == room.signal_epoch)
        }),
{
    let room = t.rooms[room_id];
    let (u, promotions) = t.handle_timeout(now);
    let after = u.rooms[room_id];
    lemma_spared(t, now, room_id);
    deadlines::lemma_timeout_at(t, now, room_id);
    deadlines::lemma_expired_clients(room, now);
    let expired = room.expired_clients(now);
    let left = room.without_expired(now);
    assert forall|c: u64| #[trigger] room.members.contains_key(c) implies (is_late(
        room.members[c],
        now,
    ) <==> room.members[c].expired(now)) by {}
    if expired.len() > 0 {
        assert(expired.contains(expired[0]));
        assert(room.members.contains_key(expired[0]));
    }
    assert forall|c: u64| #[trigger] room.members.contains_key(c) && is_late(
        room.members[c],
        now,
    ) implies expired.len() > 0 by {
        assert(room.has(c));
        assert(expired.contains(c));
    }
    vstd::set_lib::lemma_len_subset(left.members.dom(), room.members.dom());
    assert forall|c: u64| #[trigger]
        left.members.contains_key(c) <==> room.members.contains_key(c) && !is_late(
            room.members[c],
            now,
        ) by {
        assert(left.members.dom().contains(c) <==> room.has(c) && !room.members[c].expired(now));
    }
    news::lemma_clients(left);
    if left.members.dom().len() == 0 {
        assert(left.members.dom() =~= Set::empty());
        assert forall|c: u64| #[trigger] room.members.contains_key(c) implies is_late(
            room.members[c],
            now,
        ) by {
            assert(!left.members.dom().contains(c));
        }
    } else {
        let c = left.clients()[0];
        assert(left.clients().contains(c));
        assert(room.members.contains_key(c) && !is_late(room.members[c], now));
    }
    assert(left.promoted().members.dom() =~= left.members.dom()) by {
        if left.has_survivor() {
            assert(left.clients().contains(left.clients()[0]));
        }
    }
    if expired.len() > 0 {
        let e = expired[0];
        assert(room.members.dom().contains(e));
        assert(!left.members.dom().contains(e));
        assert(left.members.dom().subset_of(room.members.dom().remove(e)));
        vstd::set_lib::lemma_len_subset(left.members.dom(), room.members.dom().remove(e));
        assert(left.members.dom().len() <= 1);
        if left.members.dom().len() == 1 {
            let c = left.clients()[0];
            assert(left.clients().contains(c));
            assert forall|d: u64| #[trigger] left.members.contains_key(d) implies d == c by {
                assert(left.clients().contains(d));
            }
        }
    } else {
        assert(left.members =~= room.members) by {
            assert forall|c: u64| room.members.dom().contains(c) implies left.members.dom().contains(
                c,
            ) by {
                assert(room.members.contains_key(c));
            }
        }
    }
    deadlines::lemma_promotions_of(t, now, room_id);
}

/// A member of an SFU room that did not come back in time leaves the worker, the one with
/// the lowest number first and one at a time: the worker is told, with the numbers of its
/// stay and of the assignment. While the worker is away the member gets another grace.
pub proof fn law_late_sfu_member_leaves_the_worker(
    t: Table,
    now: Instant,
    room_id: u64,
    client_id: u64,
)
    requires
        t.inv(),
        !is_abandoned(t, now, room_id),
        t.rooms.contains_key(room_id),
        t.rooms[room_id].mode == RoomMode::Sfu,
        t.rooms[room_id].pending_leave is None,
        !(t.rooms[room_id].downgrade_deadline matches Some(d) && d.nanos <= now.nanos),
        t.rooms[room_id].members.contains_key(client_id),
        is_late(t.rooms[room_id].members[client_id], now),
        forall|c: u64| #[trigger]
            t.rooms[room_id].members.contains_key(c) && is_late(t.rooms[room_id].members[c], now)
                ==> client_id <= c,
    ensures
        ({
            let room = t.rooms[room_id];
            let after = t.handle_timeout(now).0.rooms[room_id];
            &&& t.handle_timeout(now).0.rooms.contains_key(room_id)
            &&& after == (if is_cut_off(t, room) {
                Room {
                    members: room.members.insert(
                        client_id,
                        Member {
                            reconnect_deadline: Some(at_most(now, t.reconnect_grace)),
                            ..room.members[client_id]
                        },
                    ),
                    ..room
                }
            } else {
                Room {
                    pending_leave: Some(PendingLeave { authority_request_id: None, client_id }),
                    ..room
                }
            })
            &&& !is_cut_off(t, room) ==> has_departure(
                    t.handle_timeout(now).0.actions,
                    t.workers[room.assigned_instance->0].connection_id->0,
                    sfu::LeaveMember {
                        room_id,
                        client_id,
                        lifecycle_id: room.members[client_id].lifecycle_id,
                        assignment_epoch: room.assignment_epoch,
                        reason: LeaveReason::Disconnected,
                    },
                )
        }),
{
    let room = t.rooms[room_id];
    lemma_spared(t, now, room_id);
    deadlines::lemma_timeout_at(t, now, room_id);
    deadlines::lemma_expired_clients(room, now);
    let expired = room.expired_clients(now);
    assert(room.has(client_id));
    assert(expired.contains(client_id));
    lemma_lowest_expired(room, now, client_id);
    if !is_cut_off(t, room) {
        lemma_sweep_leaves(t, now, room_id, client_id);
    }
}

/// Whether an action tells a worker of a departure.
pub open spec fn is_departure(
    action: ActionView,
    connection_id: u64,
    leave: sfu::LeaveMember,
) -> bool {
    &&& action matches ActionView::Sfu(sfu::OutputView::Command { connection_id: to, command })
    &&& to == connection_id
    &&& command.command == CommandKindView::Leave(leave)
}

/// Whether one of the actions does so.
pub open spec fn has_departure(
    actions: Seq<ActionView>,
    connection_id: u64,
    leave: sfu::LeaveMember,
) -> bool {
    exists|k: int|
        0 <= k < actions.len() && is_departure(#[trigger] actions[k], connection_id, leave)
}

proof fn lemma_lowest_expired(room: Room, now: Instant, client_id: u64)
    requires
        room.members.dom().finite(),
        room.members.contains_key(client_id),
        is_late(room.members[client_id], now),
        forall|c: u64| #[trigger]
            room.members.contains_key(c) && is_late(room.members[c], now) ==> client_id <= c,
    ensures
        room.expired_clients(now).len() > 0,
        room.expired_clients(now)[0] == client_id,
{
    let p = |c: u64| room.members[c].expired(now);
    let all = room.clients();
    ord_map::lemma_in_order::<u64>(room.members.dom());
    deadlines::lemma_expired_clients(room, now);
    assert(room.has(client_id));
    let expired = room.expired_clients(now);
    assert(expired.contains(client_id));
    super::workers::lemma_filter_ascends(all, p);
    assert(expired.contains(expired[0]));
    assert(room.has(expired[0]));
    let k = choose|k: int| 0 <= k < expired.len() && expired[k] == client_id;
    if k > 0 {
        assert(expired[0] < expired[k]);
    }
}

/// The leave that a sweep of the room sends is still to be done after all sweeps.
proof fn lemma_sweep_leaves(t: Table, now: Instant, room_id: u64, client_id: u64)
    requires
        t.inv(),
        t.spares(now, room_id),
        t.rooms.contains_key(room_id),
        t.rooms[room_id].mode == RoomMode::Sfu,
        t.rooms[room_id].pending_leave is None,
        !model::reached(t.rooms[room_id].downgrade_deadline, now),
        t.rooms[room_id].expired_clients(now).len() > 0,
        t.rooms[room_id].expired_clients(now)[0] == client_id,
        t.rooms[room_id].members.contains_key(client_id),
        !is_cut_off(t, t.rooms[room_id]),
    ensures
        has_departure(
                t.handle_timeout(now).0.actions,
                t.workers[t.rooms[room_id].assigned_instance->0].connection_id->0,
                sfu::LeaveMember {
                    room_id,
                    client_id,
                    lifecycle_id: t.rooms[room_id].members[client_id].lifecycle_id,
                    assignment_epoch: t.rooms[room_id].assignment_epoch,
                    reason: LeaveReason::Disconnected,
                },
            ),
{
    let room = t.rooms[room_id];
    let instance_id = room.assigned_instance->0;
    let gone = t.expired_workers(now);
    let u = t.expire_workers(gone);
    ord_map::lemma_in_order::<String>(t.workers.dom());
    seqs::lemma_filter_contains(
        ord_map::in_order::<String>(t.workers.dom()),
        |i: Text| model::reached(t.workers[i].disconnect_deadline, now),
    );
    deadlines::lemma_expire_workers_elsewhere(t, gone, room_id);
    invariants::lemma_expire_workers(t, gone);
    let rooms = ord_map::in_order::<u64>(u.rooms.dom());
    ord_map::lemma_in_order::<u64>(u.rooms.dom());
    ord_map::lemma_ascending_no_duplicates::<u64>(rooms);
    assert(u.rooms.dom().contains(room_id));
    assert(rooms.contains(room_id));
    assert(t.workers.contains_key(instance_id));
    assert(u.workers.dom().contains(instance_id));
    lemma_sweeps_leave(u, now, rooms, room_id, client_id, instance_id);
}

proof fn lemma_sweeps_leave(
    t: Table,
    now: Instant,
    rooms: Seq<u64>,
    room_id: u64,
    client_id: u64,
    instance_id: Text,
)
    requires
        rooms.no_duplicates(),
        rooms.contains(room_id),
        t.rooms.contains_key(room_id),
        t.rooms[room_id].mode == RoomMode::Sfu,
        t.rooms[room_id].pending_leave is None,
        !model::reached(t.rooms[room_id].downgrade_deadline, now),
        t.rooms[room_id].expired_clients(now).len() > 0,
        t.rooms[room_id].expired_clients(now)[0] == client_id,
        t.rooms[room_id].members.contains_key(client_id),
        t.rooms[room_id].assigned_instance == Some(instance_id),
        t.workers.contains_key(instance_id),
        t.workers[instance_id].connection_id is Some,
    ensures
        has_departure(
                t.sweep_rooms(now, rooms).0.actions,
                t.workers[instance_id].connection_id->0,
                sfu::LeaveMember {
                    room_id,
                    client_id,
                    lifecycle_id: t.rooms[room_id].members[client_id].lifecycle_id,
                    assignment_epoch: t.rooms[room_id].assignment_epoch,
                    reason: LeaveReason::Disconnected,
                },
            ),
    decreases rooms.len(),
{
    let front = rooms.drop_last();
    let r = rooms.last();
    let u = t.sweep_rooms(now, front).0;
    let v = u.sweep_room(now, r).0;
    assert(v == t.sweep_rooms(now, rooms).0);
    assert(rooms[rooms.len() - 1] == r);
    deadlines::lemma_sweep_rooms_at(t, now, front, room_id);
    if r == room_id {
        assert(!front.contains(room_id)) by {
            if front.contains(room_id) {
                let k = choose|k: int| 0 <= k < front.len() && front[k] == room_id;
                assert(rooms[k] == room_id);
            }
        }
        assert(t.workers.contains_key(instance_id));
        assert(u.workers.dom().contains(instance_id));
        assert(u.workers.contains_key(instance_id));
        assert(u.serving(u.rooms[room_id]) is Some);
        let k = u.actions.len() as int;
        assert(is_departure(
            v.actions[k],
            t.workers[instance_id].connection_id->0,
            sfu::LeaveMember {
                room_id,
                client_id,
                lifecycle_id: t.rooms[room_id].members[client_id].lifecycle_id,
                assignment_epoch: t.rooms[room_id].assignment_epoch,
                reason: LeaveReason::Disconnected,
            },
        ));
    } else {
        let m = choose|m: int| 0 <= m < rooms.len() && rooms[m] == room_id;
        assert(front[m] == room_id);
        lemma_sweeps_leave(t, now, front, room_id, client_id, instance_id);
        progress::law_single_room_leads_on(u, now, r);
        let k = choose|k: int|
            0 <= k < u.actions.len() && is_departure(
                #[trigger] u.actions[k],
                t.workers[instance_id].connection_id->0,
                sfu::LeaveMember {
                    room_id,
                    client_id,
                    lifecycle_id: t.rooms[room_id].members[client_id].lifecycle_id,
                    assignment_epoch: t.rooms[room_id].assignment_epoch,
                    reason: LeaveReason::Disconnected,
                },
            );
        assert(v.actions[k] == u.actions[k]);
    }
}

/// An SFU room of one or two members that waits for nobody has a deadline. With the first
/// look at the clock at or after it, the room is direct, under the next epoch and without a
/// worker, with the same members, nothing queued, and the one with the lowest number as the
/// only one that offers; before it, the room runs on its worker under its epoch.
#[verifier::rlimit(40)]
pub proof fn law_small_room_goes_back(t: Table, now: Instant, room_id: u64)
    requires
        t.inv(),
        !is_abandoned(t, now, room_id),
        t.rooms.contains_key(room_id),
        t.rooms[room_id].mode == RoomMode::Sfu,
        0 < t.rooms[room_id].members.dom().len() <= 2,
        t.rooms[room_id].upgrade is None,
        t.rooms[room_id].pending_join is None,
        t.rooms[room_id].pending_leave is None,
        t.rooms[room_id].signal_epoch < u64::MAX,
    ensures
        ({
            let room = t.rooms[room_id];
            let u = t.handle_timeout(now).0;
            let after = u.rooms[room_id];
            &&& u.rooms.contains_key(room_id)
            &&& room.downgrade_deadline matches Some(end)
            &&& if end.nanos <= now.nanos {
                &&& after == (Room {
                    members: after.members,
                    mode: RoomMode::P2p,
                    signal_epoch: (room.signal_epoch + 1) as u64,
                    assigned_instance: None,
                    downgrade_deadline: None,
                    ..room
                })
                &&& after.members.dom() == room.members.dom()
                &&& forall|c: u64| #[trigger]
                    room.members.contains_key(c) ==> after.members[c] == (Member {
                        is_initiator: after.members[c].is_initiator,
                        queued_messages: Seq::empty(),
                        ..room.members[c]
                    })
                &&& forall|c: u64| #[trigger]
                    room.members.contains_key(c) ==> (after.members[c].is_initiator
                        <==> forall|d: u64| #[trigger] room.members.contains_key(d) ==> c <= d)
            } else {
                after.mode == RoomMode::Sfu && after.signal_epoch == room.signal_epoch
                    && after.assigned_instance == room.assigned_instance && after.members.dom()
                    == room.members.dom()
            }
        }),
{
    let room = t.rooms[room_id];
    let u = t.handle_timeout(now).0;
    let after = u.rooms[room_id];
    lemma_spared(t, now, room_id);
    dwell::law_downgrade_follows_the_dwell(t, now, room_id);
    deadlines::lemma_timeout_at(t, now, room_id);
    let end = room.downgrade_deadline->0;
    if end.due(now) {
        upgrades::lemma_commit_downgrade_rooms(t, room_id);
        news::lemma_clients(room);
        let low = room.clients()[0];
        assert(room.clients().contains(low));
        assert forall|c: u64| #[trigger] room.members.contains_key(c) implies (
        after.members[c].is_initiator <==> forall|d: u64| #[trigger]
            room.members.contains_key(d) ==> c <= d) && after.members[c] == (Member {
            is_initiator: after.members[c].is_initiator,
            queued_messages: Seq::empty(),
            ..room.members[c]
        }) by {
            assert(room.has(c));
            assert(room.members.contains_key(low));
            assert forall|d: u64| #[trigger] room.members.contains_key(d) implies low <= d by {
                assert(room.has(d));
            }
        }
    } else {
        deadlines::lemma_expired_clients(room, now);
        let expired = room.expired_clients(now);
        if expired.len() > 0 {
            assert(expired.contains(expired[0]));
            let graced = t.with_grace(now, room_id, expired[0]).rooms[room_id];
            assert(graced.members.dom() =~= room.members.dom());
        }
    }
}

/// A worker that did not come back in time has no rooms and no clients, and is not waited
/// for any more; and nothing that it was asked is.
#[verifier::rlimit(40)]
pub proof fn law_late_worker_is_given_up(t: Table, now: Instant, instance_id: Text)
    requires
        t.inv(),
        t.workers.contains_key(instance_id),
        t.workers[instance_id].disconnect_deadline matches Some(d) && d.nanos <= now.nanos,
    ensures
        ({
            let u = t.handle_timeout(now).0;
            let after = u.workers[instance_id];
            &&& u.workers.contains_key(instance_id)
            &&& after.connection_id == t.workers[instance_id].connection_id
            &&& after.assigned_rooms.len() == 0
            &&& after.assigned_clients == 0
            &&& after.disconnect_deadline is None
            &&& forall|id: u64| #[trigger]
                t.command_workers.contains_key(id) && t.command_workers[id] == instance_id && id
                    < t.next_sfu_request_id ==> !u.pending_commands.contains_key(id)
        }),
{
    let gone = t.expired_workers(now);
    let names = ord_map::in_order::<String>(t.workers.dom());
    ord_map::lemma_in_order::<String>(t.workers.dom());
    seqs::lemma_filter_contains(
        names,
        |i: Text| model::reached(t.workers[i].disconnect_deadline, now),
    );
    assert(t.workers.dom().contains(instance_id));
    assert(names.contains(instance_id));
    assert(gone.contains(instance_id));
    lemma_given_up(t, gone, instance_id);
    let u = t.expire_workers(gone);
    invariants::lemma_expire_workers(t, gone);
    let rooms = ord_map::in_order::<u64>(u.rooms.dom());
    ord_map::lemma_in_order::<u64>(u.rooms.dom());
    ord_map::lemma_ascending_no_duplicates::<u64>(rooms);
    deadlines::lemma_sweep_rooms_at(u, now, rooms, 0);
    let v = t.handle_timeout(now).0;
    assert(u.workers.contains_key(instance_id));
    assert(v.workers.dom().contains(instance_id));
    assert(v.workers[instance_id].assigned_rooms.subset_of(u.workers[instance_id].assigned_rooms));
    assert(v.workers[instance_id].assigned_rooms =~= Set::empty());
    lemma_expirations_forget(t, gone);
    lemma_sweeps_forget(u, now, rooms);
    lemma_forgotten(t, u, v);
    assert forall|id: u64| #[trigger]
        t.command_workers.contains_key(id) && t.command_workers[id] == instance_id && id
            < t.next_sfu_request_id implies !v.pending_commands.contains_key(id) by {
        lemma_expiration_forgets(t, gone, instance_id, id);
    }
}

/// No number that was given out and is not waited for is waited for later.
spec fn forgets(t: Table, u: Table) -> bool {
    &&& t.next_sfu_request_id <= u.next_sfu_request_id
    &&& forall|id: u64|
        id < t.next_sfu_request_id && !t.pending_commands.contains_key(id)
            ==> !#[trigger] u.pending_commands.contains_key(id)
    &&& forall|id: u64|
        id < t.next_sfu_request_id && #[trigger] u.pending_commands.contains_key(id)
            ==> u.command_workers[id] == t.command_workers[id]
}

proof fn lemma_forgotten(a: Table, b: Table, c: Table)
    requires
        forgets(a, b),
        forgets(b, c),
    ensures
        forgets(a, c),
{
    assert forall|id: u64|
        id < a.next_sfu_request_id && #[trigger] c.pending_commands.contains_key(
            id,
        ) implies c.command_workers[id] == a.command_workers[id] by {
        assert(b.pending_commands.contains_key(id));
    }
    assert forall|id: u64|
        id < a.next_sfu_request_id && !a.pending_commands.contains_key(id)
            implies !#[trigger] c.pending_commands.contains_key(id) by {
        assert(!b.pending_commands.contains_key(id));
    }
}

proof fn lemma_leaves_forget(
    t: Table,
    instance_id: Text,
    connection: Option<u64>,
    room_id: u64,
    joined: Seq<u64>,
    assignment_epoch: u64,
    members: Seq<sfu::MemberProjection>,
)
    ensures
        forgets(t, t.leave_joined(instance_id, connection, room_id, joined).0),
        forgets(t, t.leave_all(instance_id, connection, room_id, assignment_epoch, members)),
    decreases joined.len() + members.len(),
{
    if joined.len() > 0 && connection is Some {
        let front = joined.drop_last();
        lemma_leaves_forget(
            t,
            instance_id,
            connection,
            room_id,
            front,
            assignment_epoch,
            members,
        );
        lemma_forgotten(
            t,
            t.leave_joined(instance_id, connection, room_id, front).0,
            t.leave_joined(instance_id, connection, room_id, joined).0,
        );
    }
    if members.len() > 0 && connection is Some {
        let front = members.drop_last();
        lemma_leaves_forget(
            t,
            instance_id,
            connection,
            room_id,
            joined,
            assignment_epoch,
            front,
        );
        lemma_forgotten(
            t,
            t.leave_all(instance_id, connection, room_id, assignment_epoch, front),
            t.leave_all(instance_id, connection, room_id, assignment_epoch, members),
        );
    }
}

proof fn lemma_transitions_forget(t: Table, room_id: u64, reason: Text)
    ensures
        forgets(t, t.abort_upgrade(room_id, reason).0),
        forgets(t, t.commit_downgrade(room_id).0),
{
    if t.rooms.contains_key(room_id) && t.rooms[room_id].assigned_instance is Some {
        let old = t.rooms[room_id];
        let instance_id = old.assigned_instance->0;
        let connection = t.connection(instance_id);
        if old.upgrade is Some {
            let upgrade = old.upgrade->0;
            let back = Room {
                mode: RoomMode::P2p,
                assigned_instance: None,
                upgrade: None,
                ..old.without_member(upgrade.joining_client_id)
            };
            let u = t.with_room(room_id, back).released(instance_id, room_id, 3);
            lemma_leaves_forget(
                u,
                instance_id,
                connection,
                room_id,
                upgrade.joined_clients,
                0,
                Seq::empty(),
            );
            assert(forgets(t, u));
            let v = u.leave_joined(instance_id, connection, room_id, upgrade.joined_clients).0;
            lemma_forgotten(t, u, v);
            assert(forgets(v, t.abort_upgrade(room_id, reason).0));
            lemma_forgotten(t, v, t.abort_upgrade(room_id, reason).0);
        }
        if old.members.dom().len() > 0 {
            let room = Room {
                mode: RoomMode::P2p,
                signal_epoch: model::increment(old.signal_epoch),
                downgrade_deadline: None,
                assigned_instance: None,
                ..old
            };
            let u = t.with_room(room_id, room.with_initiator(Some(old.clients()[0]))).released(
                instance_id,
                room_id,
                old.members.dom().len(),
            );
            lemma_leaves_forget(
                u,
                instance_id,
                connection,
                room_id,
                Seq::empty(),
                old.assignment_epoch,
                old.projections(),
            );
            assert(forgets(t, u));
            let v = u.leave_all(
                instance_id,
                connection,
                room_id,
                old.assignment_epoch,
                old.projections(),
            );
            lemma_forgotten(t, u, v);
            assert(forgets(v, t.commit_downgrade(room_id).0));
            lemma_forgotten(t, v, t.commit_downgrade(room_id).0);
        }
    }
}

proof fn lemma_losses_forget(t: Table, rooms: Seq<u64>)
    ensures
        forgets(t, t.lose_rooms(rooms)),
    decreases rooms.len(),
{
    if rooms.len() > 0 {
        let front = rooms.drop_last();
        lemma_losses_forget(t, front);
        let u = t.lose_rooms(front);
        lemma_transitions_forget(u, rooms.last(), "WORKER_UNAVAILABLE"@);
        assert(forgets(u, u.lose_room(rooms.last())));
        lemma_forgotten(t, u, u.lose_room(rooms.last()));
    }
}

proof fn lemma_expirations_forget(t: Table, instances: Seq<Text>)
    requires
        t.inv(),
    ensures
        forgets(t, t.expire_workers(instances)),
    decreases instances.len(),
{
    if instances.len() > 0 {
        let front = instances.drop_last();
        lemma_expirations_forget(t, front);
        let u = t.expire_workers(front);
        invariants::lemma_expire_workers(t, front);
        lemma_expiration(u, instances.last());
        lemma_forgotten(t, u, u.expire_worker(instances.last()));
    }
}

/// What a worker that is given up was asked is forgotten.
proof fn lemma_expiration(t: Table, instance_id: Text)
    requires
        t.inv(),
    ensures
        forgets(t, t.expire_worker(instance_id)),
        forall|id: u64|
            id < t.next_sfu_request_id && t.command_workers.contains_key(id)
                && t.command_workers[id] == instance_id ==> !#[trigger] t.expire_worker(
                instance_id,
            ).pending_commands.contains_key(id),
{
    let rooms = if t.workers.contains_key(instance_id) {
        ord_map::in_order::<u64>(t.workers[instance_id].assigned_rooms)
    } else {
        Seq::empty()
    };
    lemma_losses_forget(t, rooms);
    let u = t.lose_rooms(rooms);
    let v = t.expire_worker(instance_id);
    let ids = u.commands_of(instance_id);
    assert(v.pending_commands == u.pending_commands.remove_keys(ids));
    assert forall|id: u64|
        id < t.next_sfu_request_id && t.command_workers.contains_key(id)
            && t.command_workers[id] == instance_id implies !#[trigger] v.pending_commands.contains_key(
        id,
    ) by {
        if u.pending_commands.contains_key(id) {
            lemma_losses_keep_workers(t, rooms, id);
            assert(ids.contains(id));
        }
    }
    invariants::lemma_lose_rooms(t, rooms);
    assert forall|id: u64|
        id < u.next_sfu_request_id && #[trigger] v.pending_commands.contains_key(
            id,
        ) implies v.command_workers[id] == u.command_workers[id] by {
        assert(u.pending_commands.dom().contains(id));
        assert(u.command_workers.dom().contains(id));
        assert(!ids.contains(id));
    }
    assert(forgets(u, v));
    lemma_forgotten(t, u, v);
}

/// Which worker was sent what is not forgotten before the command is.
proof fn lemma_losses_keep_workers(t: Table, rooms: Seq<u64>, id: u64)
    requires
        t.command_workers.contains_key(id),
        id < t.next_sfu_request_id,
    ensures
        t.lose_rooms(rooms).command_workers.contains_key(id),
        t.lose_rooms(rooms).command_workers[id] == t.command_workers[id],
        t.next_sfu_request_id <= t.lose_rooms(rooms).next_sfu_request_id,
    decreases rooms.len(),
{
    if rooms.len() > 0 {
        let front = rooms.drop_last();
        lemma_losses_keep_workers(t, front, id);
        let u = t.lose_rooms(front);
        let r = rooms.last();
        if u.rooms.contains_key(r) && u.rooms[r].upgrade is Some
            && u.rooms[r].assigned_instance is Some {
            let old = u.rooms[r];
            let instance_id = old.assigned_instance->0;
            let back = Room {
                mode: RoomMode::P2p,
                assigned_instance: None,
                upgrade: None,
                ..old.without_member(old.upgrade->0.joining_client_id)
            };
            lemma_leaves_keep_workers(
                u.with_room(r, back).released(instance_id, r, 3),
                instance_id,
                u.connection(instance_id),
                r,
                old.upgrade->0.joined_clients,
                id,
            );
        }
    }
}

proof fn lemma_leaves_keep_workers(
    t: Table,
    instance_id: Text,
    connection: Option<u64>,
    room_id: u64,
    joined: Seq<u64>,
    id: u64,
)
    requires
        t.command_workers.contains_key(id),
        id < t.next_sfu_request_id,
    ensures
        ({
            let u = t.leave_joined(instance_id, connection, room_id, joined).0;
            &&& u.command_workers.contains_key(id)
            &&& u.command_workers[id] == t.command_workers[id]
            &&& t.next_sfu_request_id <= u.next_sfu_request_id
        }),
    decreases joined.len(),
{
    if joined.len() > 0 && connection is Some {
        lemma_leaves_keep_workers(t, instance_id, connection, room_id, joined.drop_last(), id);
    }
}

/// What one of several workers that are given up was asked is forgotten.
proof fn lemma_expiration_forgets(t: Table, instances: Seq<Text>, instance_id: Text, id: u64)
    requires
        t.inv(),
        instances.contains(instance_id),
        id < t.next_sfu_request_id,
        t.command_workers.contains_key(id),
        t.command_workers[id] == instance_id,
    ensures
        !t.expire_workers(instances).pending_commands.contains_key(id),
    decreases instances.len(),
{
    let front = instances.drop_last();
    let i = instances.last();
    assert(instances[instances.len() - 1] == i);
    let u = t.expire_workers(front);
    lemma_expirations_forget(t, front);
    invariants::lemma_expire_workers(t, front);
    lemma_expiration(u, i);
    if front.contains(instance_id) {
        lemma_expiration_forgets(t, front, instance_id, id);
    } else {
        let k = choose|k: int| 0 <= k < instances.len() && instances[k] == instance_id;
        if k < front.len() {
            assert(front[k] == instance_id);
        }
        assert(i == instance_id);
        if u.pending_commands.contains_key(id) {
            assert(u.pending_commands.dom().contains(id));
            assert(u.command_workers.dom().contains(id));
        }
    }
}

proof fn lemma_sweeps_forget(t: Table, now: Instant, rooms: Seq<u64>)
    ensures
        forgets(t, t.sweep_rooms(now, rooms).0),
    decreases rooms.len(),
{
    if rooms.len() > 0 {
        let front = rooms.drop_last();
        lemma_sweeps_forget(t, now, front);
        let u = t.sweep_rooms(now, front).0;
        lemma_transitions_forget(u, rooms.last(), Seq::empty());
        assert(forgets(u, u.sweep_room(now, rooms.last()).0));
        lemma_forgotten(t, u, u.sweep_room(now, rooms.last()).0);
    }
}

proof fn lemma_given_up(t: Table, instances: Seq<Text>, instance_id: Text)
    requires
        t.workers.contains_key(instance_id),
    ensures
        ({
            let u = t.expire_workers(instances);
            &&& u.workers.contains_key(instance_id)
            &&& u.workers[instance_id].connection_id == t.workers[instance_id].connection_id
            &&& instances.contains(instance_id) ==> u.workers[instance_id].assigned_rooms
                == Set::<u64>::empty() && u.workers[instance_id].assigned_clients == 0
                && u.workers[instance_id].disconnect_deadline is None
        }),
    decreases instances.len(),
{
    if instances.len() > 0 {
        let front = instances.drop_last();
        let i = instances.last();
        lemma_given_up(t, front, instance_id);
        assert(instances[instances.len() - 1] == i);
        if instances.contains(instance_id) && i != instance_id {
            let k = choose|k: int| 0 <= k < instances.len() && instances[k] == instance_id;
            assert(front[k] == instance_id);
        }
        let u = t.expire_workers(front);
        let rooms = if u.workers.contains_key(i) {
            ord_map::in_order::<u64>(u.workers[i].assigned_rooms)
        } else {
            Seq::empty()
        };
        deadlines::lemma_lose_rooms_elsewhere(u, rooms, 0);
        let v = u.lose_rooms(rooms);
        assert(v.workers.dom().contains(instance_id));
        assert(u.workers.contains_key(instance_id));
        if instances.contains(instance_id) && i != instance_id {
            assert(v.workers[instance_id].assigned_rooms.subset_of(
                u.workers[instance_id].assigned_rooms,
            ));
            assert(v.workers[instance_id].assigned_rooms =~= Set::<u64>::empty());
        }
    }
}

/// A worker that lets a room go has that room and its clients less, and no other change.
pub proof fn law_release_frees_the_worker(
    t: Table,
    instance_id: Text,
    room_id: u64,
    clients: nat,
)
    requires
        t.workers.contains_key(instance_id),
    ensures
        ({
            let worker = t.workers[instance_id];
            t.released(instance_id, room_id, clients) == (Table {
                workers: t.workers.insert(
                    instance_id,
                    Worker {
                        assigned_rooms: worker.assigned_rooms.remove(room_id),
                        assigned_clients: if worker.assigned_clients >= clients {
                            (worker.assigned_clients - clients) as usize
                        } else {
                            0
                        },
                        ..worker
                    },
                ),
                ..t
            })
        }),
{
}

/// A room that goes back frees its worker of all its members, and an upgrade that ends
/// early frees it of the three that were to come.
pub proof fn law_rooms_free_their_workers(t: Table, room_id: u64, reason: Text, instance_id: Text)
    requires
        t.rooms.contains_key(room_id),
        t.rooms[room_id].assigned_instance == Some(instance_id),
        t.workers.contains_key(instance_id),
        t.rooms[room_id].members.dom().len() > 0,
    ensures
        ({
            let worker = t.workers[instance_id];
            let n = t.rooms[room_id].members.dom().len();
            let back = t.commit_downgrade(room_id).0.workers[instance_id];
            let ended = t.abort_upgrade(room_id, reason).0.workers[instance_id];
            &&& back == (Worker {
                assigned_rooms: worker.assigned_rooms.remove(room_id),
                assigned_clients: back.assigned_clients,
                ..worker
            })
            &&& back.assigned_clients == (if worker.assigned_clients >= n {
                worker.assigned_clients - n
            } else {
                0
            })
            &&& t.rooms[room_id].upgrade is Some ==> ended == (Worker {
                assigned_rooms: worker.assigned_rooms.remove(room_id),
                assigned_clients: ended.assigned_clients,
                ..worker
            }) && ended.assigned_clients == (if worker.assigned_clients >= 3 {
                worker.assigned_clients - 3
            } else {
                0
            })
        }),
{
    upgrades::lemma_commit_downgrade_rooms(t, room_id);
    upgrades::lemma_abort_upgrade_rooms(t, room_id, reason);
}

/// A room that goes back takes leave of its worker for every member, in the order of their
/// numbers, if the worker is connected.
pub proof fn law_downgrade_tells_the_worker(
    t: Table,
    room_id: u64,
    instance_id: Text,
    connection_id: u64,
    client_id: u64,
)
    requires
        t.inv(),
        t.rooms.contains_key(room_id),
        t.rooms[room_id].assigned_instance == Some(instance_id),
        is_connected(t, instance_id, connection_id),
        t.rooms[room_id].members.contains_key(client_id),
    ensures
        ({
            let room = t.rooms[room_id];
            let u = t.commit_downgrade(room_id).0;
            &&& u.actions.len() == t.actions.len() + room.members.dom().len() + 1
            &&& exists|k: int|
                t.actions.len() <= k < u.actions.len() - 1 && is_departure(
                    #[trigger] u.actions[k],
                    connection_id,
                    sfu::LeaveMember {
                        room_id,
                        client_id,
                        lifecycle_id: room.members[client_id].lifecycle_id,
                        assignment_epoch: room.assignment_epoch,
                        reason: LeaveReason::RoomClosed,
                    },
                )
        }),
{
    let old = t.rooms[room_id];
    news::lemma_clients(old);
    assert(old.clients().contains(client_id));
    let room = Room {
        mode: RoomMode::P2p,
        signal_epoch: model::increment(old.signal_epoch),
        downgrade_deadline: None,
        assigned_instance: None,
        ..old
    };
    let base = t.with_room(room_id, room.with_initiator(Some(old.clients()[0]))).released(
        instance_id,
        room_id,
        old.members.dom().len(),
    );
    let members = old.projections();
    lemma_leave_all_tells(base, instance_id, connection_id, room_id, old.assignment_epoch, members);
    let v = base.leave_all(
        instance_id,
        Some(connection_id),
        room_id,
        old.assignment_epoch,
        members,
    );
    let u = t.commit_downgrade(room_id).0;
    if old.members.dom().len() == 0 {
        assert(old.members.dom() =~= Set::empty());
        assert(old.members.dom().contains(client_id));
    }
    assert(u.actions.drop_last() =~= v.actions);
    let m = choose|m: int| 0 <= m < old.clients().len() && old.clients()[m] == client_id;
    let k = t.actions.len() + m;
    assert(members[m].client_id == client_id);
    assert(is_departure(
        v.actions[k],
        connection_id,
        sfu::LeaveMember {
            room_id,
            client_id,
            lifecycle_id: old.members[client_id].lifecycle_id,
            assignment_epoch: old.assignment_epoch,
            reason: LeaveReason::RoomClosed,
        },
    ));
    assert(u.actions[k] == v.actions[k]);
}

proof fn lemma_leave_all_tells(
    t: Table,
    instance_id: Text,
    connection_id: u64,
    room_id: u64,
    assignment_epoch: u64,
    members: Seq<sfu::MemberProjection>,
)
    ensures
        ({
            let u = t.leave_all(
                instance_id,
                Some(connection_id),
                room_id,
                assignment_epoch,
                members,
            );
            &&& u.actions.len() == t.actions.len() + members.len()
            &&& forall|i: int|
                t.actions.len() <= i < u.actions.len() ==> is_departure(
                    #[trigger] u.actions[i],
                    connection_id,
                    sfu::LeaveMember {
                        room_id,
                        client_id: members[i - t.actions.len()].client_id,
                        lifecycle_id: members[i - t.actions.len()].lifecycle_id,
                        assignment_epoch,
                        reason: LeaveReason::RoomClosed,
                    },
                )
        }),
    decreases members.len(),
{
    if members.len() > 0 {
        let front = members.drop_last();
        lemma_leave_all_tells(t, instance_id, connection_id, room_id, assignment_epoch, front);
        let v = t.leave_all(
            instance_id,
            Some(connection_id),
            room_id,
            assignment_epoch,
            front,
        );
        let u = t.leave_all(
            instance_id,
            Some(connection_id),
            room_id,
            assignment_epoch,
            members,
        );
        assert forall|i: int| t.actions.len() <= i < u.actions.len() implies is_departure(
            #[trigger] u.actions[i],
            connection_id,
            sfu::LeaveMember {
                room_id,
                client_id: members[i - t.actions.len()].client_id,
                lifecycle_id: members[i - t.actions.len()].lifecycle_id,
                assignment_epoch,
                reason: LeaveReason::RoomClosed,
            },
        ) by {
            if i < v.actions.len() {
                assert(u.actions[i] == v.actions[i]);
                assert(front[i - t.actions.len()] == members[i - t.actions.len()]);
            }
        }
    }
}

/// A worker is told of a room every member once, with the number of its stay, in the order
/// of the members' numbers.
pub proof fn law_projections_name_every_member(room: Room)
    requires
        room.members.dom().finite(),
    ensures
        room.projections().len() == room.members.dom().len(),
        forall|i: int|
            0 <= i < room.projections().len() ==> room.members.contains_key(
                (#[trigger] room.projections()[i]).client_id,
            ) && room.projections()[i].lifecycle_id == room.members[
                room.projections()[i].client_id
            ].lifecycle_id,
        forall|i: int, j: int|
            0 <= i < j < room.projections().len() ==> (#[trigger] room.projections()[i]).client_id
                < (#[trigger] room.projections()[j]).client_id,
{
    news::lemma_clients(room);
    ord_map::lemma_in_order::<u64>(room.members.dom());
    let q = room.clients();
    assert forall|i: int| 0 <= i < q.len() implies room.members.contains_key(#[trigger] q[i]) by {
        assert(q.contains(q[i]));
    }
    assert forall|i: int, j: int| 0 <= i < j < room.projections().len() implies (
    #[trigger] room.projections()[i]).client_id < (#[trigger] room.projections()[j]).client_id by {
        assert(<u64 as crate::key::Key>::before(q[i], q[j]));
    }
}

/// Something is due at a point exactly if a member is waited for until then in a direct
/// room, or in an SFU room from which nobody is leaving, or a worker is, or the dwell of a
/// room ends then.
pub proof fn law_deadlines_of_a_table(t: Table, at: Instant)
    ensures
        t.is_deadline(at) <==> {
            ||| exists|r: u64, c: u64| #[trigger] waits_for_member(t, r, c, at)
            ||| exists|i: Text| #[trigger]
                t.workers.contains_key(i) && t.workers[i].disconnect_deadline == Some(at)
            ||| exists|r: u64| #[trigger]
                t.rooms.contains_key(r) && t.rooms[r].downgrade_deadline == Some(at)
        },
{
    if exists|r: u64, c: u64| t.is_reconnect_deadline(r, c, at) {
        let (r, c) = choose|r: u64, c: u64| t.is_reconnect_deadline(r, c, at);
        assert(waits_for_member(t, r, c, at));
    }
    if exists|i: Text| t.is_disconnect_deadline(i, at) {
        let i = choose|i: Text| t.is_disconnect_deadline(i, at);
        assert(t.workers.contains_key(i));
    }
    if exists|r: u64| t.is_downgrade_deadline(r, at) {
        let r = choose|r: u64| t.is_downgrade_deadline(r, at);
        assert(t.rooms.contains_key(r));
    }
    if exists|r: u64, c: u64| #[trigger] waits_for_member(t, r, c, at) {
        let (r, c) = choose|r: u64, c: u64| #[trigger] waits_for_member(t, r, c, at);
        assert(t.is_reconnect_deadline(r, c, at));
    }
    if exists|i: Text| #[trigger]
        t.workers.contains_key(i) && t.workers[i].disconnect_deadline == Some(at) {
        let i = choose|i: Text| #[trigger]
            t.workers.contains_key(i) && t.workers[i].disconnect_deadline == Some(at);
        assert(t.is_disconnect_deadline(i, at));
    }
    if exists|r: u64| #[trigger]
        t.rooms.contains_key(r) && t.rooms[r].downgrade_deadline == Some(at) {
        let r = choose|r: u64| #[trigger]
            t.rooms.contains_key(r) && t.rooms[r].downgrade_deadline == Some(at);
        assert(t.is_downgrade_deadline(r, at));
    }
}

/// Whether a member of a room is waited for until a point.
pub open spec fn waits_for_member(t: Table, room_id: u64, client_id: u64, at: Instant) -> bool {
    let room = t.rooms[room_id];
    &&& t.rooms.contains_key(room_id)
    &&& room.mode == RoomMode::P2p || room.mode == RoomMode::Sfu && room.pending_leave is None
    &&& room.members.contains_key(client_id)
    &&& room.members[client_id].reconnect_deadline == Some(at)
}

/// The clock says nothing by an action of a direct room that no late worker has.
pub proof fn lemma_silent_sweep(t: Table, now: Instant, room_id: u64)
    requires
        t.inv(),
        !is_abandoned(t, now, room_id),
        t.rooms.contains_key(room_id),
        t.rooms[room_id].mode == RoomMode::P2p,
    ensures
        t.says_nothing_of(t.handle_timeout(now).0, room_id),
{
    lemma_spared(t, now, room_id);
    let gone = t.expired_workers(now);
    ord_map::lemma_in_order::<String>(t.workers.dom());
    seqs::lemma_filter_contains(
        ord_map::in_order::<String>(t.workers.dom()),
        |i: Text| model::reached(t.workers[i].disconnect_deadline, now),
    );
    news::lemma_expire_workers(t, gone, room_id);
    deadlines::lemma_expire_workers_elsewhere(t, gone, room_id);
    invariants::lemma_expire_workers(t, gone);
    let u = t.expire_workers(gone);
    let rooms = ord_map::in_order::<u64>(u.rooms.dom());
    ord_map::lemma_in_order::<u64>(u.rooms.dom());
    ord_map::lemma_ascending_no_duplicates::<u64>(rooms);
    lemma_direct_sweeps_say_nothing(u, now, rooms, room_id);
    news::lemma_silence(t, u, t.handle_timeout(now).0, room_id);
}

proof fn lemma_direct_sweeps_say_nothing(t: Table, now: Instant, rooms: Seq<u64>, room_id: u64)
    requires
        t.inv(),
        rooms.no_duplicates(),
        t.rooms.contains_key(room_id),
        t.rooms[room_id].mode == RoomMode::P2p,
    ensures
        t.says_nothing_of(t.sweep_rooms(now, rooms).0, room_id),
    decreases rooms.len(),
{
    if rooms.len() > 0 {
        let front = rooms.drop_last();
        let r = rooms.last();
        lemma_direct_sweeps_say_nothing(t, now, front, room_id);
        let u = t.sweep_rooms(now, front).0;
        let v = u.sweep_room(now, r).0;
        assert(rooms[rooms.len() - 1] == r);
        invariants::lemma_sweep_rooms(t, now, front);
        if r == room_id {
            assert(!front.contains(room_id)) by {
                if front.contains(room_id) {
                    let k = choose|k: int| 0 <= k < front.len() && front[k] == room_id;
                    assert(rooms[k] == room_id);
                }
            }
            deadlines::lemma_sweep_rooms_at(t, now, front, room_id);
            assert(u.says_nothing_of(v, room_id));
        } else {
            news::lemma_sweep_elsewhere(u, now, r, room_id);
        }
        news::lemma_silence(t, u, v, room_id);
    }
}

/// Whether an action says that a removal is done.
pub open spec fn is_removal(action: ActionView) -> bool {
    action matches ActionView::RemovalCompleted { result, .. } && result is Ok
}

/// The other table has further actions, of which none says that a removal is done.
pub open spec fn adds_no_removal(t: Table, u: Table) -> bool {
    &&& t.actions.is_prefix_of(u.actions)
    &&& forall|k: int|
        t.actions.len() <= k < u.actions.len() ==> !is_removal(#[trigger] u.actions[k])
}

proof fn lemma_no_removals(a: Table, b: Table, c: Table)
    requires
        adds_no_removal(a, b),
        adds_no_removal(b, c),
    ensures
        adds_no_removal(a, c),
{
    assert forall|i: int| 0 <= i < a.actions.len() implies a.actions[i] == c.actions[i] by {
        assert(a.actions[i] == b.actions[i]);
    }
    assert forall|k: int| a.actions.len() <= k < c.actions.len() implies !is_removal(
        #[trigger] c.actions[k],
    ) by {
        if k < b.actions.len() {
            assert(b.actions[k] == c.actions[k]);
        }
    }
}

proof fn lemma_leaves_remove_nobody(
    t: Table,
    instance_id: Text,
    connection: Option<u64>,
    room_id: u64,
    joined: Seq<u64>,
    assignment_epoch: u64,
    members: Seq<sfu::MemberProjection>,
)
    ensures
        adds_no_removal(t, t.leave_joined(instance_id, connection, room_id, joined).0),
        adds_no_removal(
            t,
            t.leave_all(instance_id, connection, room_id, assignment_epoch, members),
        ),
    decreases joined.len() + members.len(),
{
    if joined.len() > 0 && connection is Some {
        let front = joined.drop_last();
        lemma_leaves_remove_nobody(
            t,
            instance_id,
            connection,
            room_id,
            front,
            assignment_epoch,
            members,
        );
        lemma_no_removals(
            t,
            t.leave_joined(instance_id, connection, room_id, front).0,
            t.leave_joined(instance_id, connection, room_id, joined).0,
        );
    }
    if members.len() > 0 && connection is Some {
        let front = members.drop_last();
        lemma_leaves_remove_nobody(
            t,
            instance_id,
            connection,
            room_id,
            joined,
            assignment_epoch,
            front,
        );
        lemma_no_removals(
            t,
            t.leave_all(instance_id, connection, room_id, assignment_epoch, front),
            t.leave_all(instance_id, connection, room_id, assignment_epoch, members),
        );
    }
}

proof fn lemma_transitions_remove_nobody(t: Table, room_id: u64, reason: Text)
    ensures
        adds_no_removal(t, t.abort_upgrade(room_id, reason).0),
        adds_no_removal(t, t.commit_downgrade(room_id).0),
{
    if t.rooms.contains_key(room_id) && t.rooms[room_id].assigned_instance is Some {
        let old = t.rooms[room_id];
        let instance_id = old.assigned_instance->0;
        let connection = t.connection(instance_id);
        if old.upgrade is Some {
            let upgrade = old.upgrade->0;
            let back = Room {
                mode: RoomMode::P2p,
                assigned_instance: None,
                upgrade: None,
                ..old.without_member(upgrade.joining_client_id)
            };
            lemma_leaves_remove_nobody(
                t.with_room(room_id, back).released(instance_id, room_id, 3),
                instance_id,
                connection,
                room_id,
                upgrade.joined_clients,
                0,
                Seq::empty(),
            );
        }
        if old.members.dom().len() > 0 {
            let room = Room {
                mode: RoomMode::P2p,
                signal_epoch: model::increment(old.signal_epoch),
                downgrade_deadline: None,
                assigned_instance: None,
                ..old
            };
            lemma_leaves_remove_nobody(
                t.with_room(room_id, room.with_initiator(Some(old.clients()[0]))).released(
                    instance_id,
                    room_id,
                    old.members.dom().len(),
                ),
                instance_id,
                connection,
                room_id,
                Seq::empty(),
                old.assignment_epoch,
                old.projections(),
            );
        }
    }
}

proof fn lemma_losses_remove_nobody(t: Table, rooms: Seq<u64>)
    ensures
        adds_no_removal(t, t.lose_rooms(rooms)),
    decreases rooms.len(),
{
    if rooms.len() > 0 {
        let front = rooms.drop_last();
        lemma_losses_remove_nobody(t, front);
        let u = t.lose_rooms(front);
        lemma_transitions_remove_nobody(u, rooms.last(), "WORKER_UNAVAILABLE"@);
        assert(adds_no_removal(u, u.lose_room(rooms.last())));
        lemma_no_removals(t, u, u.lose_room(rooms.last()));
    }
}

proof fn lemma_expirations_remove_nobody(t: Table, instances: Seq<Text>)
    ensures
        adds_no_removal(t, t.expire_workers(instances)),
    decreases instances.len(),
{
    if instances.len() > 0 {
        let front = instances.drop_last();
        lemma_expirations_remove_nobody(t, front);
        let u = t.expire_workers(front);
        let i = instances.last();
        let rooms = if u.workers.contains_key(i) {
            ord_map::in_order::<u64>(u.workers[i].assigned_rooms)
        } else {
            Seq::empty()
        };
        lemma_losses_remove_nobody(u, rooms);
        assert(u.expire_worker(i).actions == u.lose_rooms(rooms).actions);
        lemma_no_removals(t, u, u.expire_worker(i));
    }
}

proof fn lemma_sweeps_remove_nobody(t: Table, now: Instant, rooms: Seq<u64>)
    ensures
        adds_no_removal(t, t.sweep_rooms(now, rooms).0),
    decreases rooms.len(),
{
    if rooms.len() > 0 {
        let front = rooms.drop_last();
        lemma_sweeps_remove_nobody(t, now, front);
        let u = t.sweep_rooms(now, front).0;
        lemma_transitions_remove_nobody(u, rooms.last(), Seq::empty());
        lemma_no_removals(t, u, u.sweep_room(now, rooms.last()).0);
    }
}

/// The clock completes no removal that was asked for.
pub proof fn lemma_clock_removes_nobody(t: Table, now: Instant)
    requires
        t.actions.len() == 0,
    ensures
        forall|k: int|
            0 <= k < t.handle_timeout(now).0.actions.len() ==> !((#[trigger] t.handle_timeout(
                now,
            ).0.actions[k]) matches ActionView::RemovalCompleted { result, .. } && result is Ok),
{
    let gone = t.expired_workers(now);
    let u = t.expire_workers(gone);
    lemma_expirations_remove_nobody(t, gone);
    let rooms = ord_map::in_order::<u64>(u.rooms.dom());
    lemma_sweeps_remove_nobody(u, now, rooms);
    let v = t.handle_timeout(now).0;
    lemma_no_removals(t, u, v);
    assert forall|k: int| 0 <= k < v.actions.len() implies !((#[trigger] v.actions[k]) matches
        ActionView::RemovalCompleted { result, .. } && result is Ok) by {
        assert(!is_removal(v.actions[k]));
    }
}

/// Time leaves a room alone that no late worker has, while it is moving to its worker, has
/// failed, or waits for a member to leave; but for a deadline to go back that has passed,
/// which is dropped.
pub proof fn law_time_leaves_waiting_rooms_alone(t: Table, now: Instant, room_id: u64)
    requires
        t.inv(),
        !is_abandoned(t, now, room_id),
        t.rooms.contains_key(room_id),
        t.rooms[room_id].mode == RoomMode::Upgrading || t.rooms[room_id].mode == RoomMode::Failed
            || t.rooms[room_id].mode == RoomMode::Sfu && t.rooms[room_id].pending_leave is Some,
    ensures
        ({
            let room = t.rooms[room_id];
            let u = t.handle_timeout(now).0;
            &&& u.rooms.contains_key(room_id)
            &&& u.rooms[room_id] == (Room {
                downgrade_deadline: if room.downgrade_deadline matches Some(d) && d.nanos
                    <= now.nanos {
                    None
                } else {
                    room.downgrade_deadline
                },
                ..room
            })
        }),
{
    lemma_spared(t, now, room_id);
    deadlines::lemma_timeout_at(t, now, room_id);
}

/// An SFU room in which nobody is late and whose time to go back has not come is left alone
/// as well, if no late worker has it.
pub proof fn law_time_leaves_running_rooms_alone(t: Table, now: Instant, room_id: u64)
    requires
        t.inv(),
        !is_abandoned(t, now, room_id),
        t.rooms.contains_key(room_id),
        t.rooms[room_id].mode == RoomMode::Sfu,
        !(t.rooms[room_id].downgrade_deadline matches Some(d) && d.nanos <= now.nanos),
        forall|c: u64| #[trigger]
            t.rooms[room_id].members.contains_key(c) ==> !is_late(t.rooms[room_id].members[c], now),
    ensures
        t.handle_timeout(now).0.rooms.contains_key(room_id),
        t.handle_timeout(now).0.rooms[room_id] == t.rooms[room_id],
{
    let room = t.rooms[room_id];
    lemma_spared(t, now, room_id);
    deadlines::lemma_timeout_at(t, now, room_id);
    deadlines::lemma_expired_clients(room, now);
    let expired = room.expired_clients(now);
    if expired.len() > 0 {
        assert(expired.contains(expired[0]));
        assert(room.members.contains_key(expired[0]));
    }
}

} // verus!
