//! The way of a small room back from its worker.

use super::{deadlines, progress, upgrades};
use crate::ord_map;
use crate::seqs;
use crate::seqs::Text;
use crate::sfu;
use crate::sfu::CommandOk;
use crate::time::{Duration, Instant};
use crate::v2::model::{Pending, Room, Table};
use crate::v2::{invariants, model, ActionView, RoomMode, MAX_P2P_MEMBERS};
use vstd::prelude::*;

verus! {

impl Room {
    /// When the dwell of the room is over, if it is as small as it is from `now` on.
    pub open spec fn dwell_end(self, now: Instant, dwell: Duration) -> Instant {
        match self.downgrade_deadline {
            Some(d) => d,
            None => now.later(dwell),
        }
    }
}

/// The room is direct again: under the next signal epoch, with nothing queued, with its
/// lowest client as the one that offers, and without a worker. Its clients are to be
/// told, and the worker no longer has it.
pub open spec fn is_downgraded(before: Table, after: Table, room_id: u64) -> bool {
    let room = before.rooms[room_id];
    let direct = after.rooms[room_id];
    let initiator = room.clients()[0];
    &&& after.rooms.contains_key(room_id)
    &&& direct.mode == RoomMode::P2p
    &&& direct.signal_epoch == model::increment(room.signal_epoch)
    &&& direct.downgrade_deadline is None
    &&& direct.assigned_instance is None
    &&& direct.members.dom() == room.members.dom()
    &&& room.has(initiator)
    &&& forall|c: u64| #[trigger]
        room.has(c) ==> initiator <= c && direct.members[c] == room.members[c].reset(c == initiator)
    &&& after.actions.contains(
        ActionView::Downgraded {
            room_id,
            signal_epoch: direct.signal_epoch,
            initiator_client_id: initiator,
            clients: room.clients(),
        },
    )
    &&& room.assigned_instance matches Some(i) && before.workers.contains_key(i)
        && !after.workers[i].assigned_rooms.contains(room_id)
}

/// A stable SFU room that is small enough has a deadline. As long as the deadline is not
/// reached, the room stays on its worker; with the first look at the clock after that it
/// is direct again. The one thing that can come in between is the loss of a worker that
/// has the room, which fails it.
pub proof fn law_downgrade_follows_the_dwell(t: Table, now: Instant, room_id: u64)
    requires
        t.inv(),
        t.rooms.contains_key(room_id),
        t.rooms[room_id].downgrade_eligible(),
    ensures
        ({
            let u = t.handle_timeout(now).0;
            &&& u.rooms.contains_key(room_id)
            &&& t.rooms[room_id].downgrade_deadline matches Some(end)
            &&& if !t.spares(now, room_id) {
                u.rooms[room_id].mode == RoomMode::Failed
            } else if end.due(now) {
                is_downgraded(t, u, room_id)
            } else {
                u.runs_on_worker(room_id) && u.rooms[room_id].signal_epoch
                    == t.rooms[room_id].signal_epoch
            }
        }),
{
    if !t.spares(now, room_id) {
        let i = choose|i: Text| #[trigger]
            t.workers.contains_key(i) && model::reached(t.workers[i].disconnect_deadline, now)
                && t.workers[i].assigned_rooms.contains(room_id);
        deadlines::law_lost_worker_fails_its_rooms(t, now, i, room_id);
    } else if t.rooms[room_id].downgrade_deadline->0.due(now) {
        lemma_downgrade(t, now, room_id);
    } else {
        law_no_downgrade_before_the_dwell(t, now, room_id);
    }
}

proof fn lemma_downgrade(t: Table, now: Instant, room_id: u64)
    requires
        t.inv(),
        t.spares(now, room_id),
        t.rooms.contains_key(room_id),
        t.rooms[room_id].downgrade_eligible(),
        model::reached(t.rooms[room_id].downgrade_deadline, now),
    ensures
        is_downgraded(t, t.handle_timeout(now).0, room_id),
{
    let room = t.rooms[room_id];
    deadlines::lemma_timeout_at(t, now, room_id);
    upgrades::lemma_commit_downgrade_rooms(t, room_id);
    ord_map::lemma_in_order::<u64>(room.members.dom());
    let initiator = room.clients()[0];
    assert(room.clients().contains(initiator));
    assert(room.members.dom().contains(initiator));
    assert forall|c: u64| #[trigger] room.has(c) implies initiator <= c by {
        assert(room.members.dom().contains(c));
        assert(room.clients().contains(c));
        let k = choose|k: int| 0 <= k < room.clients().len() && room.clients()[k] == c;
        if k > 0 {
            assert(<u64 as crate::key::Key>::before(room.clients()[0], room.clients()[k]));
        }
    }
    let u = t.handle_timeout(now).0;
    assert(u.rooms[room_id].members.dom() =~= room.members.dom());
    let v = t.expire_workers(t.expired_workers(now));
    lemma_expired_agree(t, now, room_id);
    let rooms = ord_map::in_order::<u64>(v.rooms.dom());
    progress::lemma_expire_workers(t, t.expired_workers(now));
    vstd::set_lib::lemma_len_subset(v.rooms.dom(), t.rooms.dom());
    ord_map::lemma_in_order::<u64>(v.rooms.dom());
    ord_map::lemma_ascending_no_duplicates::<u64>(rooms);
    assert(v.rooms.dom().contains(room_id));
    lemma_sweep_rooms_downgrade(v, now, rooms, room_id);
}

/// The loss of workers that do not have a room does not concern it.
proof fn lemma_expired_agree(t: Table, now: Instant, room_id: u64)
    requires
        t.inv(),
        t.spares(now, room_id),
    ensures
        t.agrees_on(t.expire_workers(t.expired_workers(now)), room_id),
        t.keeps_workers(t.expire_workers(t.expired_workers(now))),
{
    ord_map::lemma_in_order::<String>(t.workers.dom());
    seqs::lemma_filter_contains(
        ord_map::in_order::<String>(t.workers.dom()),
        |i: Text| model::reached(t.workers[i].disconnect_deadline, now),
    );
    deadlines::lemma_expire_workers_elsewhere(t, t.expired_workers(now), room_id);
}

proof fn lemma_sweep_rooms_downgrade(t: Table, now: Instant, rooms: Seq<u64>, room_id: u64)
    requires
        rooms.no_duplicates(),
        rooms.contains(room_id),
        t.rooms.contains_key(room_id),
        t.rooms[room_id].downgrade_eligible(),
        model::reached(t.rooms[room_id].downgrade_deadline, now),
    ensures
        t.sweep_rooms(now, rooms).0.actions.contains(
            ActionView::Downgraded {
                room_id,
                signal_epoch: model::increment(t.rooms[room_id].signal_epoch),
                initiator_client_id: t.rooms[room_id].clients()[0],
                clients: t.rooms[room_id].clients(),
            },
        ),
        t.rooms[room_id].assigned_instance matches Some(i) ==> t.workers.contains_key(i)
            ==> !t.sweep_rooms(now, rooms).0.workers[i].assigned_rooms.contains(room_id),
    decreases rooms.len(),
{
    let front = rooms.drop_last();
    let r = rooms.last();
    let u = t.sweep_rooms(now, front).0;
    let v = u.sweep_room(now, r).0;
    let room = t.rooms[room_id];
    assert(rooms[rooms.len() - 1] == r);
    let news = ActionView::Downgraded {
        room_id,
        signal_epoch: model::increment(t.rooms[room_id].signal_epoch),
        initiator_client_id: t.rooms[room_id].clients()[0],
        clients: t.rooms[room_id].clients(),
    };
    deadlines::lemma_sweep_rooms_at(t, now, front, room_id);
    deadlines::lemma_sweep_room_elsewhere(u, now, r, room_id);
    if room.assigned_instance is Some {
        assert(t.workers.contains_key(room.assigned_instance->0) == u.workers.dom().contains(
            room.assigned_instance->0,
        ));
    }
    if r == room_id {
        upgrades::lemma_commit_downgrade_rooms(u, r);
        assert(v.actions.last() == news);
        assert(v.actions[v.actions.len() - 1] == news);
    } else {
        let k = choose|k: int| 0 <= k < rooms.len() && rooms[k] == room_id;
        assert(front[k] == room_id);
        lemma_sweep_rooms_downgrade(t, now, front, room_id);
        progress::law_single_room_leads_on(u, now, r);
        let j = choose|j: int| 0 <= j < u.actions.len() && u.actions[j] == news;
        assert(v.actions[j] == news);
    }
}

/// As long as its dwell is not over, an SFU room stays one.
pub proof fn law_no_downgrade_before_the_dwell(t: Table, now: Instant, room_id: u64)
    requires
        t.inv(),
        t.spares(now, room_id),
        t.runs_on_worker(room_id),
        !model::reached(t.rooms[room_id].downgrade_deadline, now),
    ensures
        t.handle_timeout(now).0.runs_on_worker(room_id),
        t.handle_timeout(now).0.rooms[room_id].signal_epoch == t.rooms[room_id].signal_epoch,
{
    deadlines::lemma_timeout_at(t, now, room_id);
    let room = t.rooms[room_id];
    deadlines::lemma_expired_clients(room, now);
    let expired = room.expired_clients(now);
    if expired.len() > 0 {
        assert(expired.contains(expired[0]));
    }
}

/// Whether a room waits for a member to leave its worker, which was asked for it and is
/// connected.
pub open spec fn awaits_leave(
    t: Table,
    connection_id: u64,
    instance_id: Text,
    request_id: u64,
    left: sfu::LeaveMember,
) -> bool {
    let room = t.rooms[left.room_id];
    &&& t.connection(instance_id) == Some(connection_id)
    &&& t.pending_commands.contains_key(request_id)
    &&& t.pending_commands[request_id] == (Pending::SfuLeave {
        instance_id,
        room_id: left.room_id,
        client_id: left.client_id,
        lifecycle_id: left.lifecycle_id,
        assignment_epoch: left.assignment_epoch,
    })
    &&& t.rooms.contains_key(left.room_id)
    &&& room.has(left.client_id)
    &&& room.pending_leave is Some
}

/// Whether a room that runs on its worker waits for that and for nothing else.
pub open spec fn is_asked_to_leave(
    t: Table,
    connection_id: u64,
    instance_id: Text,
    request_id: u64,
    left: sfu::LeaveMember,
) -> bool {
    &&& awaits_leave(t, connection_id, instance_id, request_id, left)
    &&& t.runs_on_worker(left.room_id)
    &&& t.rooms[left.room_id].pending_join is None
}

/// The dwell starts when the first leave makes the room small enough, and further
/// leaves do not start it anew.
pub proof fn law_leave_starts_the_dwell(
    t: Table,
    now: Instant,
    connection_id: u64,
    instance_id: Text,
    request_id: u64,
    left: sfu::LeaveMember,
)
    requires
        t.inv(),
        is_asked_to_leave(t, connection_id, instance_id, request_id, left),
        2 <= t.rooms[left.room_id].members.dom().len() <= 3,
    ensures
        ({
            let room = t.rooms[left.room_id];
            let (u, answer) = t.handle_sfu_input(
                upgrades::result_input(
                    connection_id,
                    instance_id,
                    request_id,
                    Ok(CommandOk::MemberLeft(left)),
                    now,
                ),
            );
            let after = u.rooms[left.room_id];
            &&& answer is Ok
            &&& u.runs_on_worker(left.room_id)
            &&& after.members == room.without_member(left.client_id).promoted().members
            &&& after.members.dom() == room.members.dom().remove(left.client_id)
            &&& after.downgrade_eligible()
            &&& after.downgrade_deadline == Some(room.dwell_end(now, t.downgrade_dwell))
        }),
{
    let gone = t.rooms[left.room_id].without_member(left.client_id);
    assert(gone.members.dom() =~= t.rooms[left.room_id].members.dom().remove(left.client_id));
    lemma_survivor(gone);
}

/// The members of a room stay when one of them is promoted.
proof fn lemma_survivor(room: Room)
    requires
        room.members.dom().finite(),
    ensures
        room.promoted().members.dom() == room.members.dom(),
{
    if room.has_survivor() {
        ord_map::lemma_in_order::<u64>(room.members.dom());
        assert(room.clients().contains(room.clients()[0]));
        assert(room.members.dom().contains(room.clients()[0]));
        assert(room.promoted().members.dom() =~= room.members.dom());
    }
}

/// A leave that the worker refused starts the dwell again, if it ended meanwhile.
pub proof fn law_refused_leave_starts_the_dwell(
    t: Table,
    now: Instant,
    connection_id: u64,
    instance_id: Text,
    request_id: u64,
    left: sfu::LeaveMember,
    error: sfu::ErrorView,
)
    requires
        t.inv(),
        is_asked_to_leave(t, connection_id, instance_id, request_id, left),
        t.rooms[left.room_id].members.dom().len() <= MAX_P2P_MEMBERS,
    ensures
        ({
            let room = t.rooms[left.room_id];
            let (u, answer) = t.handle_sfu_input(
                upgrades::result_input(connection_id, instance_id, request_id, Err(error), now),
            );
            let after = u.rooms[left.room_id];
            &&& answer is Ok
            &&& u.runs_on_worker(left.room_id)
            &&& after.members == room.members
            &&& after.downgrade_eligible()
            &&& after.downgrade_deadline == Some(room.dwell_end(now, t.downgrade_dwell))
        }),
{
    let room = t.rooms[left.room_id];
    assert(room.members.dom().contains(left.client_id));
    if room.members.dom().len() == 0 {
        assert(room.members.dom() =~= Set::empty());
    }
}

/// A join that the worker refused starts the dwell of the room, which is as small as it
/// was before.
pub proof fn law_refused_join_starts_the_dwell(
    t: Table,
    now: Instant,
    connection_id: u64,
    instance_id: Text,
    request_id: u64,
    join: sfu::JoinMember,
    error: sfu::ErrorView,
)
    requires
        t.inv(),
        t.connection(instance_id) == Some(connection_id),
        t.pending_commands.contains_key(request_id),
        t.pending_commands[request_id] == (Pending::SfuJoin { instance_id, join }),
        t.runs_on_worker(join.room_id),
        t.rooms[join.room_id].pending_join matches Some(pending) && pending.client_id
            == join.client_id,
        t.rooms[join.room_id].pending_leave is None,
        0 < t.rooms[join.room_id].members.dom().remove(join.client_id).len() <= MAX_P2P_MEMBERS,
    ensures
        ({
            let room = t.rooms[join.room_id];
            let (u, answer) = t.handle_sfu_input(
                upgrades::result_input(connection_id, instance_id, request_id, Err(error), now),
            );
            let after = u.rooms[join.room_id];
            &&& answer is Ok
            &&& u.runs_on_worker(join.room_id)
            &&& after.members == room.members.remove(join.client_id)
            &&& after.downgrade_eligible()
            &&& after.downgrade_deadline == Some(room.dwell_end(now, t.downgrade_dwell))
        }),
{
    let room = t.rooms[join.room_id];
    assert(room.members.remove(join.client_id).dom() =~= room.members.dom().remove(join.client_id));
}

/// Whatever a worker does: a room that was small enough before and still is keeps its
/// deadline, and one that has become small enough has the deadline that it had, or else
/// one that is the dwell away.
pub proof fn law_dwell_runs_from_eligibility(t: Table, input: sfu::InputView, room_id: u64)
    requires
        t.inv(),
        t.rooms.contains_key(room_id),
        t.handle_sfu_input(input).0.rooms.contains_key(room_id),
        t.handle_sfu_input(input).0.rooms[room_id].downgrade_eligible(),
    ensures
        ({
            let room = t.rooms[room_id];
            let after = t.handle_sfu_input(input).0.rooms[room_id];
            if room.downgrade_eligible() {
                after.downgrade_deadline == room.downgrade_deadline
            } else {
                &&& input matches sfu::InputView::CommandResult { now, .. }
                &&& after.downgrade_deadline == Some(room.dwell_end(now, t.downgrade_dwell))
            }
        }),
{
    match input {
        sfu::InputView::Register { connection_id, instance_id, request_id, capacity } => {
            upgrades::lemma_register_worker_keeps_rooms(
                t,
                connection_id,
                instance_id,
                request_id,
                capacity,
            );
        },
        sfu::InputView::CommandResult { connection_id, instance_id, result, now } => {
            if t.connection(instance_id) == Some(connection_id) && t.pending_commands.contains_key(
                result.request_id,
            ) {
                let u = t.acknowledged(result.request_id);
                match t.pending_commands[result.request_id] {
                    Pending::UpgradeJoin { instance_id: expected, join } => {
                        upgrades::lemma_abort_upgrade_rooms(
                            u,
                            join.room_id,
                            model::failure_reason(result.result),
                        );
                    },
                    _ => {},
                }
            }
        },
        _ => {},
    }
}

/// Nothing that browsers and authorities do, nor the clock, makes a room small enough or
/// moves the deadline of one that is.
pub proof fn law_nothing_else_moves_the_dwell(
    t: Table,
    room_id: u64,
    request_id: u64,
    now: Instant,
    other_room: u64,
    client_id: u64,
    signal_epoch: u64,
    text: Text,
)
    requires
        t.inv(),
    ensures
        t.keeps_dwell(t.admit_client(request_id, now, other_room, client_id, text).0, room_id),
        t.keeps_dwell(t.register(other_room, client_id, text).0, room_id),
        t.keeps_dwell(t.deregister(now, other_room, client_id), room_id),
        t.keeps_dwell(t.send(other_room, client_id, signal_epoch, text).0, room_id),
        t.keeps_dwell(t.remove(request_id, other_room, client_id, text).0, room_id),
        t.keeps_dwell(t.handle_timeout(now).0, room_id),
{
    let u = t.register(other_room, client_id, text).0;
    let v = t.deregister(now, other_room, client_id);
    if t.is_member(other_room, client_id) {
        assert(u.rooms[other_room].members.dom() =~= t.rooms[other_room].members.dom());
        assert(v.rooms[other_room].members.dom() =~= t.rooms[other_room].members.dom());
    }
    lemma_timeout_keeps_dwell(t, now, room_id);
}

impl Table {
    /// A room that is small enough in the other table was so in this one, and has the
    /// deadline that it had.
    pub open spec fn keeps_dwell(self, later: Table, room_id: u64) -> bool {
        later.rooms.contains_key(room_id) && later.rooms[room_id].downgrade_eligible() ==> {
            &&& self.rooms.contains_key(room_id)
            &&& self.rooms[room_id].downgrade_eligible()
            &&& later.rooms[room_id].downgrade_deadline == self.rooms[room_id].downgrade_deadline
        }
    }
}

proof fn lemma_timeout_keeps_dwell(t: Table, now: Instant, room_id: u64)
    requires
        t.inv(),
    ensures
        t.keeps_dwell(t.handle_timeout(now).0, room_id),
{
    if t.runs_on_worker(room_id) {
        if t.spares(now, room_id) {
            deadlines::lemma_timeout_at(t, now, room_id);
            let room = t.rooms[room_id];
            deadlines::lemma_expired_clients(room, now);
            let expired = room.expired_clients(now);
            if expired.len() > 0 {
                assert(expired.contains(expired[0]));
                let graced = t.with_grace(now, room_id, expired[0]).rooms[room_id];
                assert(graced.members.dom() =~= room.members.dom());
            }
            if room.downgrade_eligible() {
                upgrades::lemma_commit_downgrade_rooms(t, room_id);
            }
        } else {
            let i = choose|i: Text| #[trigger]
                t.workers.contains_key(i) && model::reached(t.workers[i].disconnect_deadline, now)
                    && t.workers[i].assigned_rooms.contains(room_id);
            deadlines::law_lost_worker_fails_its_rooms(t, now, i, room_id);
        }
    } else {
        upgrades::lemma_timeout_modes(t, now, room_id);
    }
}

/// A room of three connected members from which one leaves its worker, under a dwell
/// that may have been set just before: at every look at the clock before the dwell is
/// over it has two members and runs on the worker, unchanged, and at the first one after
/// that it has the same two and is direct. A dwell that had been running before keeps
/// its end, whatever was set. No worker that has the room may be late then, which its
/// own, being connected, is not.
pub proof fn law_shrunken_room_is_direct_after_the_dwell(
    t: Table,
    dwell: Duration,
    now: Instant,
    connection_id: u64,
    instance_id: Text,
    request_id: u64,
    left: sfu::LeaveMember,
    early: Instant,
    late: Instant,
)
    requires
        t.inv(),
        is_asked_to_leave(t, connection_id, instance_id, request_id, left),
        t.spares(early, left.room_id),
        t.spares(late, left.room_id),
        t.rooms[left.room_id].members.dom().len() == 3,
        forall|c: u64| #[trigger]
            t.rooms[left.room_id].members.contains_key(c) && c != left.client_id
                ==> t.rooms[left.room_id].members[c].registered,
        !t.rooms[left.room_id].dwell_end(now, dwell).due(early),
        t.rooms[left.room_id].dwell_end(now, dwell).due(late),
    ensures
        ({
            let room_id = left.room_id;
            let set = Table { downgrade_dwell: dwell, ..t };
            let u = set.handle_sfu_input(
                upgrades::result_input(
                    connection_id,
                    instance_id,
                    request_id,
                    Ok(CommandOk::MemberLeft(left)),
                    now,
                ),
            ).0;
            let before = u.handle_timeout(early).0;
            let after = before.handle_timeout(late).0;
            &&& set.rooms == t.rooms
            &&& u.occupancy(room_id) == (2nat, RoomMode::Sfu)
            &&& u.rooms[room_id].downgrade_deadline == Some(
                t.rooms[room_id].dwell_end(now, dwell),
            )
            &&& before.occupancy(room_id) == (2nat, RoomMode::Sfu)
            &&& before.rooms[room_id] == u.rooms[room_id]
            &&& after.occupancy(room_id) == (2nat, RoomMode::P2p)
            &&& is_downgraded(before, after, room_id)
            &&& u.handle_timeout(late).0.occupancy(room_id) == (2nat, RoomMode::P2p)
            &&& is_downgraded(u, u.handle_timeout(late).0, room_id)
        }),
{
    let room_id = left.room_id;
    let set = Table { downgrade_dwell: dwell, ..t };
    assert forall|r: u64| #[trigger] set.rooms.contains_key(r) implies set.rooms[r].inv()
        && set.seats(r, set.rooms[r]) by {
        assert(t.rooms.contains_key(r));
        assert(t.seats(r, t.rooms[r]));
    }
    let input = upgrades::result_input(
        connection_id,
        instance_id,
        request_id,
        Ok(CommandOk::MemberLeft(left)),
        now,
    );
    let u = set.handle_sfu_input(input).0;
    law_leave_starts_the_dwell(set, now, connection_id, instance_id, request_id, left);
    invariants::law_sfu_input_keeps_inv(set, input);
    assert forall|i: Text| #[trigger] u.workers.contains_key(i) implies t.workers.contains_key(i)
        && u.workers[i].assigned_rooms == t.workers[i].assigned_rooms
        && u.workers[i].disconnect_deadline == t.workers[i].disconnect_deadline by {}
    assert(u.spares(early, room_id));
    assert(u.spares(late, room_id));
    deadlines::lemma_timeout_at(u, early, room_id);
    let room = u.rooms[room_id];
    deadlines::lemma_expired_clients(room, early);
    let expired = room.expired_clients(early);
    if expired.len() > 0 {
        assert(expired.contains(expired[0]));
        assert(room.members.contains_key(expired[0]));
        assert(t.rooms[room_id].members.contains_key(expired[0]));
    }
    let before = u.handle_timeout(early).0;
    invariants::law_timeout_keeps_inv(u, early);
    lemma_timeout_keeps_workers(u, early, room_id);
    assert(before.spares(late, room_id)) by {
        assert forall|i: Text| #[trigger]
            before.workers.contains_key(i) && model::reached(
                before.workers[i].disconnect_deadline,
                late,
            ) implies !before.workers[i].assigned_rooms.contains(room_id) by {
            assert(u.workers.dom().contains(i));
            assert(u.workers.contains_key(i));
        }
    }
    law_downgrade_follows_the_dwell(before, late, room_id);
    law_downgrade_follows_the_dwell(u, late, room_id);
}

/// Time connects no worker and gives none a room or a deadline.
proof fn lemma_timeout_keeps_workers(t: Table, now: Instant, room_id: u64)
    requires
        t.inv(),
        t.spares(now, room_id),
    ensures
        t.keeps_workers(t.handle_timeout(now).0),
{
    let gone = t.expired_workers(now);
    let u = t.expire_workers(gone);
    lemma_expired_agree(t, now, room_id);
    progress::lemma_expire_workers(t, gone);
    vstd::set_lib::lemma_len_subset(u.rooms.dom(), t.rooms.dom());
    let rooms = ord_map::in_order::<u64>(u.rooms.dom());
    ord_map::lemma_in_order::<u64>(u.rooms.dom());
    ord_map::lemma_ascending_no_duplicates::<u64>(rooms);
    deadlines::lemma_sweep_rooms_at(u, now, rooms, room_id);
    let v = t.handle_timeout(now).0;
    assert forall|i: Text| #[trigger] t.workers.contains_key(i) implies {
        &&& v.workers[i].connection_id == t.workers[i].connection_id
        &&& v.workers[i].assigned_rooms.subset_of(t.workers[i].assigned_rooms)
        &&& v.workers[i].assigned_clients <= t.workers[i].assigned_clients
        &&& v.workers[i].disconnect_deadline is None || v.workers[i].disconnect_deadline
            == t.workers[i].disconnect_deadline
    } by {
        assert(u.workers.dom().contains(i));
        assert(u.workers.contains_key(i));
    }
}

/// A new member cancels the dwell.
pub proof fn law_join_cancels_the_dwell(
    t: Table,
    authority_request_id: u64,
    now: Instant,
    room_id: u64,
    client_id: u64,
    token: Text,
)
    requires
        t.runs_on_worker(room_id),
        t.admit_client(authority_request_id, now, room_id, client_id, token).1 is Ok,
    ensures
        ({
            let (u, result) = t.admit_client(authority_request_id, now, room_id, client_id, token);
            &&& result->Ok_0 is Pending
            &&& u.runs_on_worker(room_id)
            &&& u.rooms[room_id].downgrade_deadline is None
            &&& !u.rooms[room_id].downgrade_eligible()
        }),
{
}

} // verus!
