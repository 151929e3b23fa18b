//! What every operation on a V2 room table keeps.

use super::model::{Member, Room, Table, Upgrade, Worker};
use super::{model, ActionView, PendingJoin, PendingLeave, RoomMode};
use super::{EVENT_DEDUP_CAPACITY, MAX_P2P_MEMBERS, MAX_QUEUED_MESSAGES};
use crate::ord_map;
use crate::seqs;
use crate::seqs::Text;
use crate::sfu;
use crate::sfu::{CommandKindView, LeaveReason, MemberProjection};
use crate::time::{Duration, Instant};
use vstd::prelude::*;

verus! {

impl Room {
    /// The room is in order, and where it is small enough to be downgraded it has a
    /// deadline for that.
    pub open spec fn inv(self) -> bool {
        &&& self.in_order()
        &&& self.downgrade_eligible() ==> self.downgrade_deadline is Some
    }

    /// Whether a worker has, or is about to get, the members of the room.
    pub open spec fn needs_worker(self) -> bool {
        self.mode == RoomMode::Upgrading || self.mode == RoomMode::Sfu
    }

    /// A direct room has at most two members. A room is upgrading exactly as long as
    /// it has an upgrade, unless it has failed; the upgrade still waits for someone,
    /// those that joined are the ones before it, the joining client is the last, and
    /// there are at most two members besides it. While a room is upgrading, all that
    /// are to join are its members.
    /// Neither a direct room nor one with an upgrade waits for a single join or leave,
    /// or for a downgrade.
    /// At most one member offers. A connected member has no deadline, and no queue is
    /// too long.
    pub open spec fn in_order(self) -> bool {
        &&& self.members.dom().finite()
        &&& self.mode == RoomMode::P2p ==> self.members.dom().len() <= MAX_P2P_MEMBERS
        &&& self.mode == RoomMode::Upgrading ==> self.upgrade is Some
        &&& self.upgrade matches Some(upgrade) ==> {
            &&& self.mode == RoomMode::Upgrading || self.mode == RoomMode::Failed
            &&& upgrade.next_client < upgrade.ordered_clients.len()
            &&& upgrade.joined_clients == upgrade.ordered_clients.take(upgrade.next_client as int)
            &&& upgrade.ordered_clients.no_duplicates()
            &&& upgrade.ordered_clients.last() == upgrade.joining_client_id
            &&& self.members.dom().remove(upgrade.joining_client_id).len() <= MAX_P2P_MEMBERS
            &&& self.pending_join is None
            &&& self.pending_leave is None
            &&& self.downgrade_deadline is None
            &&& self.mode == RoomMode::Upgrading ==> self.has(upgrade.joining_client_id)
                && forall|i: int|
                0 <= i < upgrade.ordered_clients.len() ==> self.has(
                    #[trigger] upgrade.ordered_clients[i],
                )
        }
        &&& self.mode == RoomMode::P2p ==> self.pending_join is None && self.pending_leave is None
            && self.downgrade_deadline is None
        &&& self.has_one_offerer()
        &&& forall|c: u64| #[trigger]
            self.members.contains_key(c) ==> self.members[c].queued_messages.len()
                <= MAX_QUEUED_MESSAGES && !(self.members[c].registered
                && self.members[c].reconnect_deadline is Some)
    }

    /// No two members offer.
    pub open spec fn has_one_offerer(self) -> bool {
        forall|a: u64, b: u64|
            self.has(a) && self.has(b) && #[trigger] self.members[a].is_initiator
                && #[trigger] self.members[b].is_initiator ==> a == b
    }
}

impl Worker {
    /// A connected worker has no deadline, and the events that it sent are remembered
    /// in order.
    pub open spec fn inv(self) -> bool {
        &&& self.assigned_rooms.finite()
        &&& self.connection_id is Some ==> self.disconnect_deadline is None
        &&& self.memory_inv()
    }

    /// The events that are remembered are those in the order, each once, and not too
    /// many.
    pub open spec fn memory_inv(self) -> bool {
        &&& self.seen_event_order.no_duplicates()
        &&& self.seen_event_order.len() <= EVENT_DEDUP_CAPACITY
        &&& forall|id: u64| #[trigger]
            self.seen_events.contains(id) <==> self.seen_event_order.contains(id)
    }
}

impl Table {
    /// Each command that is waited for is kept with its worker and under its own
    /// number, which was given out before.
    pub open spec fn commands_inv(self) -> bool {
        &&& self.pending_commands.dom().finite()
        &&& self.unacknowledged_commands.dom() == self.pending_commands.dom()
        &&& self.command_workers.dom() == self.pending_commands.dom()
        &&& forall|id: u64| #[trigger]
            self.pending_commands.contains_key(id) ==> self.unacknowledged_commands[id].request_id
                == id && (id < self.next_sfu_request_id || self.next_sfu_request_id == u64::MAX)
    }

    /// Whether a room with this number that needs a worker has one that knows of it.
    /// A worker may know of more: it keeps the number of a room that failed on it, also
    /// after that room was emptied and another has taken the number.
    pub open spec fn seats(self, room_id: u64, room: Room) -> bool {
        room.needs_worker() ==> {
            &&& room.assigned_instance matches Some(instance_id)
            &&& self.workers.contains_key(instance_id)
            &&& self.workers[instance_id].assigned_rooms.contains(room_id)
        }
    }

    /// Rooms, workers and commands are in order, and each room that needs a worker is
    /// among the rooms of the worker that it is assigned to.
    pub open spec fn inv(self) -> bool {
        &&& self.rooms.dom().finite()
        &&& self.workers.dom().finite()
        &&& self.commands_inv()
        &&& forall|r: u64| #[trigger]
            self.rooms.contains_key(r) ==> self.rooms[r].inv() && self.seats(r, self.rooms[r])
        &&& forall|i: Text| #[trigger] self.workers.contains_key(i) ==> self.workers[i].inv()
    }
}

// Steps that operations are made of

proof fn lemma_with_room(t: Table, room_id: u64, room: Room)
    requires
        t.inv(),
        room.inv(),
        t.seats(room_id, room),
    ensures
        t.with_room(room_id, room).inv(),
{
    let u = t.with_room(room_id, room);
    assert forall|r: u64| #[trigger] u.rooms.contains_key(r) implies u.rooms[r].inv() && u.seats(
        r,
        u.rooms[r],
    ) by {
        if r != room_id {
            assert(t.rooms.contains_key(r));
            assert(t.seats(r, t.rooms[r]));
        }
    }
}

proof fn lemma_without_room(t: Table, room_id: u64)
    requires
        t.inv(),
    ensures
        t.without_room(room_id).inv(),
{
}

proof fn lemma_with_worker(t: Table, instance_id: Text, worker: Worker)
    requires
        t.inv(),
        worker.inv(),
        forall|r: u64| #[trigger]
            t.rooms.contains_key(r) && t.rooms[r].needs_worker() && t.rooms[r].assigned_instance
                == Some(instance_id) ==> worker.assigned_rooms.contains(r),
    ensures
        t.with_worker(instance_id, worker).inv(),
{
    let u = t.with_worker(instance_id, worker);
    assert forall|r: u64| #[trigger] u.rooms.contains_key(r) implies u.rooms[r].inv() && u.seats(
        r,
        u.rooms[r],
    ) by {
        assert(t.rooms.contains_key(r));
        assert(t.seats(r, t.rooms[r]));
    }
}

proof fn lemma_commanded(
    t: Table,
    instance_id: Text,
    connection_id: u64,
    kind: CommandKindView,
    pending: model::Pending,
)
    requires
        t.inv(),
    ensures
        t.commanded(instance_id, connection_id, kind, pending).inv(),
{
    let u = t.commanded(instance_id, connection_id, kind, pending);
    assert(u.unacknowledged_commands.dom() =~= u.pending_commands.dom());
    assert(u.command_workers.dom() =~= u.pending_commands.dom());
}

proof fn lemma_without_commands(t: Table, ids: Set<u64>)
    requires
        t.inv(),
    ensures
        t.without_commands(ids).inv(),
{
    let u = t.without_commands(ids);
    assert(u.pending_commands.dom() =~= t.pending_commands.dom().difference(ids));
    assert(u.unacknowledged_commands.dom() =~= u.pending_commands.dom());
    assert(u.command_workers.dom() =~= u.pending_commands.dom());
}

proof fn lemma_acknowledged(t: Table, request_id: u64)
    requires
        t.inv(),
    ensures
        t.acknowledged(request_id).inv(),
{
    let u = t.acknowledged(request_id);
    assert(u.unacknowledged_commands.dom() =~= u.pending_commands.dom());
    assert(u.command_workers.dom() =~= u.pending_commands.dom());
}

/// Fewer members are no more.
proof fn lemma_fewer_members(room: Room, client_id: u64)
    requires
        room.in_order(),
        room.mode != RoomMode::Upgrading,
    ensures
        room.without_member(client_id).in_order(),
{
    let left = room.without_member(client_id);
    assert(left.members.dom() =~= room.members.dom().remove(client_id));
    if room.upgrade is Some {
        let joining = room.upgrade->0.joining_client_id;
        vstd::set_lib::lemma_len_subset(
            left.members.dom().remove(joining),
            room.members.dom().remove(joining),
        );
    }
    vstd::set_lib::lemma_len_subset(left.members.dom(), room.members.dom());
}

/// A change of members that are there keeps the room in order, as long as nobody
/// turns into an offerer, nobody connected has a deadline and no queue gets too long.
proof fn lemma_same_members(room: Room, members: Map<u64, Member>)
    requires
        room.inv(),
        members.dom() == room.members.dom(),
        forall|c: u64| #[trigger]
            members.contains_key(c) ==> members[c].queued_messages.len() <= MAX_QUEUED_MESSAGES
                && !(members[c].registered && members[c].reconnect_deadline is Some)
                && members[c].is_initiator == room.members[c].is_initiator,
    ensures
        (Room { members, ..room }).inv(),
{
}

proof fn lemma_promoted(room: Room)
    requires
        room.in_order(),
    ensures
        room.promoted().in_order(),
        room.promoted().members.dom() == room.members.dom(),
{
    if room.has_survivor() {
        ord_map::lemma_in_order::<u64>(room.members.dom());
        let c = room.clients()[0];
        assert(room.clients().contains(c));
        assert(room.members.dom().contains(c));
        assert(room.promoted().members.dom() =~= room.members.dom());
    }
}

proof fn lemma_released(t: Table, instance_id: Text, room_id: u64, clients: nat)
    requires
        t.inv(),
        t.rooms.contains_key(room_id) ==> !t.rooms[room_id].needs_worker(),
    ensures
        t.released(instance_id, room_id, clients).inv(),
        t.released(instance_id, room_id, clients).rooms == t.rooms,
{
    if t.workers.contains_key(instance_id) {
        lemma_with_worker(t, instance_id, t.workers[instance_id].released(room_id, clients));
    }
}

/// A room that may have shrunk gets its deadline.
proof fn lemma_armed(t: Table, room_id: u64, room: Room, now: Instant)
    requires
        t.inv(),
        room.in_order(),
        t.seats(room_id, room),
    ensures
        t.with_room(room_id, room).arm_downgrade(room_id, now).inv(),
        t.with_room(room_id, room).arm_downgrade(room_id, now) == t.with_room(
            room_id,
            t.with_room(room_id, room).arm_downgrade(room_id, now).rooms[room_id],
        ),
{
    let u = t.with_room(room_id, room).arm_downgrade(room_id, now);
    let armed = u.rooms[room_id];
    assert(armed.in_order());
    lemma_with_room(t, room_id, armed);
    assert(u =~= t.with_room(room_id, armed));
}

proof fn lemma_leave_joined(
    t: Table,
    instance_id: Text,
    connection: Option<u64>,
    room_id: u64,
    joined: Seq<u64>,
)
    requires
        t.inv(),
    ensures
        t.leave_joined(instance_id, connection, room_id, joined).0.inv(),
    decreases joined.len(),
{
    if joined.len() > 0 {
        lemma_leave_joined(t, instance_id, connection, room_id, joined.drop_last());
        if connection is Some {
            let u = t.leave_joined(instance_id, connection, room_id, joined.drop_last()).0;
            let room = u.rooms[room_id];
            let c = joined.last();
            lemma_commanded(
                u,
                instance_id,
                connection->0,
                CommandKindView::Leave(
                    sfu::LeaveMember {
                        room_id,
                        client_id: c,
                        lifecycle_id: room.members[c].lifecycle_id,
                        assignment_epoch: room.assignment_epoch,
                        reason: LeaveReason::RoomClosed,
                    },
                ),
                model::Pending::Cleanup,
            );
        }
    }
}

proof fn lemma_leave_all(
    t: Table,
    instance_id: Text,
    connection: Option<u64>,
    room_id: u64,
    assignment_epoch: u64,
    members: Seq<MemberProjection>,
)
    requires
        t.inv(),
    ensures
        t.leave_all(instance_id, connection, room_id, assignment_epoch, members).inv(),
    decreases members.len(),
{
    if members.len() > 0 && connection is Some {
        lemma_leave_all(
            t,
            instance_id,
            connection,
            room_id,
            assignment_epoch,
            members.drop_last(),
        );
        let u = t.leave_all(
            instance_id,
            connection,
            room_id,
            assignment_epoch,
            members.drop_last(),
        );
        lemma_commanded(
            u,
            instance_id,
            connection->0,
            CommandKindView::Leave(
                sfu::LeaveMember {
                    room_id,
                    client_id: members.last().client_id,
                    lifecycle_id: members.last().lifecycle_id,
                    assignment_epoch,
                    reason: LeaveReason::RoomClosed,
                },
            ),
            model::Pending::Cleanup,
        );
    }
}

// Operations

proof fn lemma_abort_upgrade(t: Table, room_id: u64, reason: Text)
    requires
        t.inv(),
    ensures
        t.abort_upgrade(room_id, reason).0.inv(),
{
    if t.rooms.contains_key(room_id) && t.rooms[room_id].upgrade is Some {
        let room = t.rooms[room_id];
        let upgrade = room.upgrade->0;
        assert(room.members.remove(upgrade.joining_client_id).dom() =~= room.members.dom().remove(
            upgrade.joining_client_id,
        ));
        let aborted = Room {
            mode: RoomMode::P2p,
            assigned_instance: None,
            upgrade: None,
            ..room.without_member(upgrade.joining_client_id)
        };
        lemma_with_room(t, room_id, aborted);
        if room.assigned_instance is Some {
            let instance_id = room.assigned_instance->0;
            let u = t.with_room(room_id, aborted);
            lemma_released(u, instance_id, room_id, 3);
            lemma_leave_joined(
                u.released(instance_id, room_id, 3),
                instance_id,
                t.connection(instance_id),
                room_id,
                upgrade.joined_clients,
            );
        }
    }
}

proof fn lemma_commit_upgrade(t: Table, room_id: u64, upgrade: Upgrade, now: Instant)
    requires
        t.inv(),
        t.rooms.contains_key(room_id),
        t.rooms[room_id].upgrade is Some,
        t.seats(room_id, (Room { mode: RoomMode::Sfu, ..t.rooms[room_id] })),
    ensures
        t.with_room(room_id, (Room { upgrade: Some(upgrade), ..t.rooms[room_id] })).commit_upgrade(
            room_id,
            now,
        ).0.inv(),
{
    let before = t.rooms[room_id];
    let room = Room {
        mode: RoomMode::Sfu,
        signal_epoch: model::increment(before.signal_epoch),
        upgrade: None,
        ..before.with_initiator(None)
    };
    assert(room.members.dom() =~= before.members.dom());
    lemma_armed(t, room_id, room, now);
    let u = t.with_room(room_id, (Room { upgrade: Some(upgrade), ..before }));
    assert(u.with_room(room_id, room) =~= t.with_room(room_id, room));
}

proof fn lemma_issue_next_upgrade_join(t: Table, room_id: u64)
    requires
        t.inv(),
    ensures
        t.issue_next_upgrade_join(room_id).0.inv(),
{
    if t.issue_next_upgrade_join(room_id).1 is Ok {
        let room = t.rooms[room_id];
        let upgrade = room.upgrade->0;
        let client_id = upgrade.ordered_clients[upgrade.next_client as int];
        let (instance_id, connection_id) = t.serving(room)->0;
        let join = sfu::JoinMember {
            room_id,
            client_id,
            lifecycle_id: room.members[client_id].lifecycle_id,
            assignment_epoch: room.assignment_epoch,
        };
        lemma_commanded(
            t,
            instance_id,
            connection_id,
            CommandKindView::Join(join),
            model::Pending::UpgradeJoin { instance_id, join },
        );
    }
}

/// Admitting a client keeps the table in order.
pub proof fn law_admit_client_keeps_inv(
    t: Table,
    authority_request_id: u64,
    now: Instant,
    room_id: u64,
    client_id: u64,
    token: Text,
)
    requires
        t.inv(),
    ensures
        t.admit_client(authority_request_id, now, room_id, client_id, token).0.inv(),
{
    let (u, result) = t.admit_client(authority_request_id, now, room_id, client_id, token);
    let t1 = t.with_lifecycle(room_id, client_id);
    assert(t1.inv());
    if t.is_member(room_id, client_id) {
    } else if !t.rooms.contains_key(room_id) {
        let member = t.admitted_member(now, room_id, client_id, token, true);
        let room = Room::of_one(client_id, member);
        assert(room.members.dom() =~= Set::empty().insert(client_id));
        lemma_with_room(t1, room_id, room);
    } else {
        let room = t.rooms[room_id];
        let member = t.admitted_member(now, room_id, client_id, token, false);
        let joined = room.with_member(client_id, member);
        assert(joined.members.dom() =~= room.members.dom().insert(client_id));
        if room.mode == RoomMode::P2p {
            if room.members.dom().len() < MAX_P2P_MEMBERS {
                lemma_with_room(t1, room_id, joined);
            } else if t.selected_worker(3) is Some {
                let instance_id = t.selected_worker(3)->0;
                super::laws::upgrades::law_selected_worker_is_best(t, 3);
                let v = t.upgrading(authority_request_id, room_id, client_id, member, instance_id);
                let upgrading = v.rooms[room_id];
                assert(upgrading.members.dom() =~= room.members.dom().insert(client_id));
                assert(upgrading.members.dom().remove(client_id) =~= room.members.dom());
                ord_map::lemma_in_order::<u64>(room.members.dom());
                let ordered = room.clients().push(client_id);
                assert forall|i: int| 0 <= i < ordered.len() implies upgrading.has(
                    #[trigger] ordered[i],
                ) by {
                    if i < room.clients().len() {
                        assert(room.clients().contains(room.clients()[i]));
                        assert(room.members.dom().contains(room.clients()[i]));
                    }
                }
                ord_map::lemma_ascending_no_duplicates::<u64>(room.clients());
                assert(ordered.no_duplicates()) by {
                    assert(room.clients().contains(client_id) <==> room.has(client_id));
                }
                assert(upgrading.upgrade->0.joined_clients =~= ordered.take(0));
                assert(upgrading.inv());
                assert(v.workers[instance_id].inv());
                assert forall|r: u64| #[trigger] v.rooms.contains_key(r) implies v.rooms[r].inv()
                    && v.seats(r, v.rooms[r]) by {
                    if r != room_id {
                        assert(t.rooms.contains_key(r));
                        assert(t.seats(r, t.rooms[r]));
                    }
                }
                assert(v.inv());
                lemma_issue_next_upgrade_join(v, room_id);
            }
        } else if room.mode == RoomMode::Sfu && room.pending_join is None
            && room.pending_leave is None {
            if t.serving(room) is Some {
                let (instance_id, connection_id) = t.serving(room)->0;
                let waiting = Room {
                    pending_join: Some(PendingJoin { authority_request_id, client_id }),
                    downgrade_deadline: None,
                    ..joined
                };
                lemma_with_room(t1, room_id, waiting);
                let join = sfu::JoinMember {
                    room_id,
                    client_id,
                    lifecycle_id: member.lifecycle_id,
                    assignment_epoch: room.assignment_epoch,
                };
                lemma_commanded(
                    t1.with_room(room_id, waiting),
                    instance_id,
                    connection_id,
                    CommandKindView::Join(join),
                    model::Pending::SfuJoin { instance_id, join },
                );
            }
        }
    }
}

/// Registering a browser keeps the table in order.
pub proof fn law_register_keeps_inv(t: Table, room_id: u64, client_id: u64, token: Text)
    requires
        t.inv(),
    ensures
        t.register(room_id, client_id, token).0.inv(),
{
    if t.register(room_id, client_id, token).1 is Ok {
        let room = t.rooms[room_id];
        let here = room.with_member(
            client_id,
            Member { registered: true, reconnect_deadline: None, ..room.members[client_id] },
        );
        assert(here.members.dom() =~= room.members.dom());
        lemma_same_members(room, here.members);
        let drained = here.with_queues_drained(client_id);
        assert(drained.members.dom() =~= room.members.dom());
        lemma_same_members(here, drained.members);
        lemma_with_room(t, room_id, here);
        lemma_with_room(t, room_id, drained);
    }
}

proof fn lemma_leaving(
    t: Table,
    room_id: u64,
    client_id: u64,
    authority_request_id: Option<u64>,
    reason: LeaveReason,
    instance_id: Text,
    connection_id: u64,
)
    requires
        t.inv(),
        t.rooms.contains_key(room_id),
        t.rooms[room_id].mode == RoomMode::Sfu,
    ensures
        t.leaving(
            room_id,
            client_id,
            authority_request_id,
            reason,
            instance_id,
            connection_id,
        ).inv(),
{
    let room = t.rooms[room_id];
    let lifecycle_id = room.members[client_id].lifecycle_id;
    let assignment_epoch = room.assignment_epoch;
    let waiting = Room {
        pending_leave: Some(PendingLeave { authority_request_id, client_id }),
        ..room
    };
    lemma_with_room(t, room_id, waiting);
    lemma_commanded(
        t.with_room(room_id, waiting),
        instance_id,
        connection_id,
        CommandKindView::Leave(
            sfu::LeaveMember { room_id, client_id, lifecycle_id, assignment_epoch, reason },
        ),
        model::Pending::SfuLeave { instance_id, room_id, client_id, lifecycle_id, assignment_epoch },
    );
}

proof fn lemma_issue_sfu_leave(t: Table, room_id: u64, client_id: u64, reason: LeaveReason)
    requires
        t.inv(),
    ensures
        t.issue_sfu_leave(room_id, client_id, reason) matches Some(u) ==> u.inv(),
{
    if t.issue_sfu_leave(room_id, client_id, reason) is Some {
        let (instance_id, connection_id) = t.serving(t.rooms[room_id])->0;
        lemma_leaving(t, room_id, client_id, None, reason, instance_id, connection_id);
    }
}

proof fn lemma_with_grace(t: Table, now: Instant, room_id: u64, client_id: u64)
    requires
        t.inv(),
        t.is_member(room_id, client_id),
        !t.rooms[room_id].members[client_id].registered,
    ensures
        t.with_grace(now, room_id, client_id).inv(),
{
    let room = t.rooms[room_id];
    let graced = room.with_member(
        client_id,
        Member {
            reconnect_deadline: Some(now.later(t.reconnect_grace)),
            ..room.members[client_id]
        },
    );
    assert(graced.members.dom() =~= room.members.dom());
    lemma_same_members(room, graced.members);
    lemma_with_room(t, room_id, graced);
}

/// The loss of a browser keeps the table in order.
pub proof fn law_deregister_keeps_inv(t: Table, now: Instant, room_id: u64, client_id: u64)
    requires
        t.inv(),
    ensures
        t.deregister(now, room_id, client_id).inv(),
{
    if t.is_member(room_id, client_id) && t.rooms[room_id].members[client_id].registered {
        let room = t.rooms[room_id];
        let gone = room.with_member(
            client_id,
            Member { registered: false, ..room.members[client_id] },
        );
        assert(gone.members.dom() =~= room.members.dom());
        lemma_same_members(room, gone.members);
        lemma_with_room(t, room_id, gone);
        let u = t.with_room(room_id, gone);
        lemma_issue_sfu_leave(u, room_id, client_id, LeaveReason::Disconnected);
        lemma_with_grace(u, now, room_id, client_id);
    }
}

/// A message keeps the table in order.
pub proof fn law_send_keeps_inv(
    t: Table,
    room_id: u64,
    client_id: u64,
    signal_epoch: u64,
    message: Text,
)
    requires
        t.inv(),
    ensures
        t.send(room_id, client_id, signal_epoch, message).0.inv(),
{
    if t.is_member(room_id, client_id) {
        let room = t.rooms[room_id];
        let member = room.members[client_id];
        if t.serving(room) is Some {
            let (instance_id, connection_id) = t.serving(room)->0;
            lemma_commanded(
                t,
                instance_id,
                connection_id,
                CommandKindView::Signal(
                    sfu::SignalView {
                        room_id,
                        client_id,
                        lifecycle_id: member.lifecycle_id,
                        assignment_epoch: room.assignment_epoch,
                        message_json: message,
                        sdp_request_id: None,
                    },
                ),
                model::Pending::Signal,
            );
        }
        if member.queued_messages.len() < MAX_QUEUED_MESSAGES {
            let queued = room.with_member(
                client_id,
                Member { queued_messages: member.queued_messages.push(message), ..member },
            );
            assert(queued.members.dom() =~= room.members.dom());
            lemma_same_members(room, queued.members);
            lemma_with_room(t, room_id, queued);
        }
    }
}

/// A removal keeps the table in order.
pub proof fn law_remove_keeps_inv(
    t: Table,
    authority_request_id: u64,
    room_id: u64,
    client_id: u64,
    token: Text,
)
    requires
        t.inv(),
    ensures
        t.remove(authority_request_id, room_id, client_id, token).0.inv(),
{
    if t.is_member(room_id, client_id) {
        let room = t.rooms[room_id];
        if !room.needs_worker() {
            lemma_fewer_members(room, client_id);
            lemma_promoted(room.without_member(client_id));
            lemma_with_room(t, room_id, room.without_member(client_id).promoted());
        }
        if room.mode == RoomMode::Sfu && t.serving(room) is Some {
            let (instance_id, connection_id) = t.serving(room)->0;
            lemma_leaving(
                t,
                room_id,
                client_id,
                Some(authority_request_id),
                LeaveReason::User,
                instance_id,
                connection_id,
            );
        }
    }
}

proof fn lemma_fail_room(t: Table, room_id: u64, reason: Text)
    requires
        t.inv(),
    ensures
        t.fail_room(room_id, reason).inv(),
{
    if t.rooms.contains_key(room_id) {
        lemma_with_room(t, room_id, Room { mode: RoomMode::Failed, ..t.rooms[room_id] });
    }
}

pub proof fn lemma_sync_rooms(t: Table, instance_id: Text, connection_id: u64, rooms: Seq<u64>)
    requires
        t.inv(),
    ensures
        t.sync_rooms(instance_id, connection_id, rooms).inv(),
    decreases rooms.len(),
{
    if rooms.len() > 0 {
        lemma_sync_rooms(t, instance_id, connection_id, rooms.drop_last());
        let u = t.sync_rooms(instance_id, connection_id, rooms.drop_last());
        let room_id = rooms.last();
        let room = u.rooms[room_id];
        lemma_commanded(
            u,
            instance_id,
            connection_id,
            CommandKindView::SyncRoom(
                sfu::SyncRoomView {
                    room_id,
                    assignment_epoch: room.assignment_epoch,
                    members: room.projections(),
                },
            ),
            model::Pending::SyncRoom {
                instance_id,
                room_id,
                assignment_epoch: room.assignment_epoch,
                replay: u.replay(instance_id, room_id),
            },
        );
    }
}

/// A worker that has registered is known, before anything is synchronized.
pub proof fn lemma_register_parts(
    t: Table,
    connection_id: u64,
    instance_id: Text,
    request_id: u64,
    capacity: sfu::Capacity,
)
    requires
        t.inv(),
    ensures
        t.worker_connected(connection_id, instance_id, request_id, capacity).inv(),
        t.worker_connected(connection_id, instance_id, request_id, capacity).without_syncs(
            instance_id,
        ).inv(),
{
    let u = t.worker_connected(connection_id, instance_id, request_id, capacity);
    assert(u.workers[instance_id].inv());
    assert(u.inv());
    lemma_without_commands(u, u.syncs_with(instance_id));
}

proof fn lemma_register_worker(
    t: Table,
    connection_id: u64,
    instance_id: Text,
    request_id: u64,
    capacity: sfu::Capacity,
)
    requires
        t.inv(),
    ensures
        t.register_worker(connection_id, instance_id, request_id, capacity).inv(),
{
    let u = t.worker_connected(connection_id, instance_id, request_id, capacity);
    assert(u.workers[instance_id].inv());
    assert(u.inv());
    lemma_without_commands(u, u.syncs_with(instance_id));
    let v = u.without_syncs(instance_id);
    lemma_sync_rooms(
        v,
        instance_id,
        connection_id,
        ord_map::in_order::<u64>(v.workers[instance_id].assigned_rooms),
    );
}

/// An event with a new number is remembered in order.
pub proof fn lemma_after_event(worker: Worker, request_id: u64)
    requires
        worker.memory_inv(),
        !worker.seen_events.contains(request_id),
    ensures
        worker.after_event(request_id).memory_inv(),
{
    let order = worker.seen_event_order.push(request_id);
    let u = worker.after_event(request_id);
    assert(order.no_duplicates()) by {
        assert(!worker.seen_event_order.contains(request_id));
    }
    assert forall|id: u64| #[trigger] u.seen_events.contains(id) <==> u.seen_event_order.contains(
        id,
    ) by {
        assert(worker.seen_events.contains(id) <==> worker.seen_event_order.contains(id));
        if worker.seen_event_order.contains(id) {
            let j = choose|j: int|
                0 <= j < worker.seen_event_order.len() && worker.seen_event_order[j] == id;
            assert(order[j] == id);
        }
        assert(order[order.len() - 1] == request_id);
        assert(order.contains(id) <==> worker.seen_events.insert(request_id).contains(id)) by {
            if order.contains(id) {
                let j = choose|j: int| 0 <= j < order.len() && order[j] == id;
                if j < worker.seen_event_order.len() {
                    assert(worker.seen_event_order[j] == id);
                }
            }
        }
        if order.len() > EVENT_DEDUP_CAPACITY {
            let rest = order.skip(1);
            if rest.contains(id) {
                let j = choose|j: int| 0 <= j < rest.len() && rest[j] == id;
                assert(order[j + 1] == id);
            }
            if order.contains(id) && id != order[0] {
                let j = choose|j: int| 0 <= j < order.len() && order[j] == id;
                assert(rest[j - 1] == id);
            }
        }
    }
}

proof fn lemma_handle_worker_event(
    t: Table,
    connection_id: u64,
    instance_id: Text,
    event: sfu::EventView,
)
    requires
        t.inv(),
    ensures
        t.handle_worker_event(connection_id, instance_id, event).0.inv(),
{
    if t.workers.contains_key(instance_id) {
        let worker = t.workers[instance_id];
        if !worker.seen_events.contains(event.request_id) {
            lemma_after_event(worker, event.request_id);
            let seen = worker.after_event(event.request_id);
            lemma_with_worker(t, instance_id, seen);
            let u = t.with_worker(instance_id, seen);
            match event.event {
                sfu::EventKindView::Health(health) => {
                    let told = Worker {
                        capacity: health.capacity,
                        health: Some(health),
                        ..seen
                    };
                    assert(told.inv());
                    lemma_with_worker(u, instance_id, told);
                },
                sfu::EventKindView::Failure { error, room_id, .. } => {
                    if room_id is Some {
                        lemma_fail_room(u, room_id->0, error.reason);
                    }
                },
                _ => {},
            }
        }
    }
}

proof fn lemma_sfu_leave_outcome(
    t: Table,
    room_id: u64,
    client_id: u64,
    instance_id: Text,
    failure: Option<Text>,
    now: Instant,
)
    requires
        t.inv(),
        t.workers.contains_key(instance_id),
    ensures
        t.sfu_leave_outcome(room_id, client_id, instance_id, failure, now).0.inv(),
{
    if t.rooms.contains_key(room_id) && t.rooms[room_id].pending_leave is Some {
        let pending = t.rooms[room_id].pending_leave->0;
        let room = Room { pending_leave: None, ..t.rooms[room_id] };
        assert(room.in_order());
        match failure {
            Some(reason) => {
                let refusal = ActionView::removal(pending, room_id, client_id, Err(reason));
                let u = t.with_actions(refusal);
                assert(u.inv());
                lemma_armed(u, room_id, room, now);
                assert(u.with_room(room_id, room) =~= t.with_room(room_id, room).with_actions(
                    refusal,
                ));
            },
            None => {
                lemma_fewer_members(room, client_id);
                let answer = ActionView::removal(pending, room_id, client_id, Ok(()));
                let left = room.without_member(client_id);
                lemma_promoted(left);
                lemma_member_left(t, room_id, room, client_id, instance_id, now, answer);
            },
        }
    }
}

proof fn lemma_member_left(
    t: Table,
    room_id: u64,
    room: Room,
    client_id: u64,
    instance_id: Text,
    now: Instant,
    answer: Seq<ActionView>,
)
    requires
        t.inv(),
        t.workers.contains_key(instance_id),
        t.seats(room_id, room),
        room.without_member(client_id).in_order(),
        room.without_member(client_id).promoted().in_order(),
    ensures
        t.member_left(room_id, room, client_id, instance_id, now, answer).inv(),
{
    let left = room.without_member(client_id);
    let worker = t.workers[instance_id];
    let empty = left.members.dom().len() == 0;
    let w = Worker {
        assigned_rooms: if empty {
            worker.assigned_rooms.remove(room_id)
        } else {
            worker.assigned_rooms
        },
        assigned_clients: model::capped_difference(worker.assigned_clients, 1),
        ..worker
    };
    assert(w.inv());
    if empty {
        lemma_without_room(t, room_id);
        lemma_with_worker(t.without_room(room_id), instance_id, w);
        let u = t.without_room(room_id).with_worker(instance_id, w).with_actions(answer);
        assert(u.inv());
        assert(u =~= t.member_left(room_id, room, client_id, instance_id, now, answer));
    } else {
        lemma_with_worker(t, instance_id, w);
        let stays = if room.has(client_id) {
            left.promoted()
        } else {
            left
        };
        let news = if room.has(client_id) {
            ActionView::promoted(left.promotion(room_id))
        } else {
            Seq::empty()
        };
        let v = t.with_worker(instance_id, w).with_actions(answer);
        let u = v.with_actions(news);
        assert(u.inv());
        assert(v.with_actions(Seq::empty()) =~= v);
        lemma_armed(u, room_id, stays, now);
        assert(u.with_room(room_id, stays) =~= v.with_room(room_id, stays).with_actions(news));
    }
}

proof fn lemma_sfu_join_result(
    t: Table,
    from_expected: bool,
    join: sfu::JoinMember,
    instance_id: Text,
    result: Result<sfu::CommandOk, sfu::ErrorView>,
    now: Instant,
)
    requires
        t.inv(),
        t.workers.contains_key(instance_id),
    ensures
        t.sfu_join_result(from_expected, join, instance_id, result, now).0.inv(),
{
    let room_id = join.room_id;
    if t.rooms.contains_key(room_id) && t.rooms[room_id].pending_join is Some {
        let pending = t.rooms[room_id].pending_join->0;
        let room = Room { pending_join: None, ..t.rooms[room_id] };
        assert(room.in_order());
        let worker = t.workers[instance_id];
        assert(worker.inv());
        lemma_with_worker(
            t,
            instance_id,
            Worker { assigned_clients: model::capped_sum(worker.assigned_clients, 1), ..worker },
        );
        let u = t.with_one_client_more(instance_id);
        lemma_armed(u, room_id, room, now);
        assert(u.with_room(room_id, room) =~= t.with_room(room_id, room).with_one_client_more(
            instance_id,
        ));
        lemma_fewer_members(room, pending.client_id);
        let left = room.without_member(pending.client_id);
        let refusal = ActionView::AdmissionCompleted {
            authority_request_id: pending.authority_request_id,
            result: Err(model::failure_reason(result)),
        };
        let v = t.with_action(refusal);
        assert(v.inv());
        lemma_armed(v, room_id, left, now);
        assert(v.with_room(room_id, left) =~= t.with_room(room_id, left).with_action(refusal));
    }
}

proof fn lemma_upgrade_join_result(
    t: Table,
    from_expected: bool,
    join: sfu::JoinMember,
    instance_id: Text,
    result: Result<sfu::CommandOk, sfu::ErrorView>,
    now: Instant,
)
    requires
        t.inv(),
    ensures
        t.upgrade_join_result(from_expected, join, instance_id, result, now).0.inv(),
{
    let room_id = join.room_id;
    lemma_abort_upgrade(t, room_id, model::failure_reason(result));
    if t.awaits_join(instance_id, join) {
        let upgrade = t.rooms[room_id].upgrade->0;
        let next = Upgrade {
            joined_clients: upgrade.joined_clients.push(join.client_id),
            next_client: upgrade.next_client + 1,
            ..upgrade
        };
        let room = Room { upgrade: Some(next), ..t.rooms[room_id] };
        if upgrade.next_client + 1 == upgrade.ordered_clients.len() {
            lemma_commit_upgrade(t, room_id, next, now);
        } else {
            assert(next.joined_clients =~= next.ordered_clients.take(next.next_client as int));
            assert(room.inv());
            lemma_with_room(t, room_id, room);
            lemma_issue_next_upgrade_join(t.with_room(room_id, room), room_id);
        }
    }
}

proof fn lemma_handle_command_result(
    t: Table,
    connection_id: u64,
    instance_id: Text,
    result: sfu::CommandResultView,
    now: Instant,
)
    requires
        t.inv(),
    ensures
        t.handle_command_result(connection_id, instance_id, result, now).0.inv(),
{
    if t.workers.contains_key(instance_id) && t.pending_commands.contains_key(result.request_id) {
        let u = t.acknowledged(result.request_id);
        lemma_acknowledged(t, result.request_id);
        match t.pending_commands[result.request_id] {
            model::Pending::SyncRoom { room_id, .. } => {
                lemma_fail_room(u, room_id, "WORKER_UNAVAILABLE"@);
            },
            model::Pending::UpgradeJoin { instance_id: expected, join } => {
                lemma_upgrade_join_result(
                    u,
                    expected == instance_id,
                    join,
                    instance_id,
                    result.result,
                    now,
                );
            },
            model::Pending::SfuJoin { instance_id: expected, join } => {
                lemma_sfu_join_result(
                    u,
                    expected == instance_id,
                    join,
                    instance_id,
                    result.result,
                    now,
                );
            },
            model::Pending::SfuLeave { room_id, client_id, .. } => {
                lemma_sfu_leave_outcome(u, room_id, client_id, instance_id, None, now);
                lemma_sfu_leave_outcome(
                    u,
                    room_id,
                    client_id,
                    instance_id,
                    Some(model::failure_reason(result.result)),
                    now,
                );
            },
            _ => {},
        }
    }
}

/// Whatever a worker does keeps the table in order.
pub proof fn law_sfu_input_keeps_inv(t: Table, input: sfu::InputView)
    requires
        t.inv(),
    ensures
        t.handle_sfu_input(input).0.inv(),
{
    match input {
        sfu::InputView::Register { connection_id, instance_id, request_id, capacity } => {
            lemma_register_worker(t, connection_id, instance_id, request_id, capacity);
        },
        sfu::InputView::CommandResult { connection_id, instance_id, result, now } => {
            lemma_handle_command_result(t, connection_id, instance_id, result, now);
        },
        sfu::InputView::Event { connection_id, instance_id, event } => {
            lemma_handle_worker_event(t, connection_id, instance_id, event);
        },
        sfu::InputView::Disconnected { connection_id, instance_id, now } => {
            if t.workers.contains_key(instance_id) {
                let worker = t.workers[instance_id];
                assert(worker.inv());
                lemma_with_worker(
                    t,
                    instance_id,
                    Worker {
                        connection_id: None,
                        health: None,
                        disconnect_deadline: Some(now.later(t.reconnect_grace)),
                        ..worker
                    },
                );
            }
        },
    }
}

pub proof fn lemma_lose_rooms(t: Table, rooms: Seq<u64>)
    requires
        t.inv(),
    ensures
        t.lose_rooms(rooms).inv(),
    decreases rooms.len(),
{
    if rooms.len() > 0 {
        lemma_lose_rooms(t, rooms.drop_last());
        lemma_lose_room(t.lose_rooms(rooms.drop_last()), rooms.last());
    }
}

proof fn lemma_lose_room(t: Table, room_id: u64)
    requires
        t.inv(),
    ensures
        t.lose_room(room_id).inv(),
{
    lemma_abort_upgrade(t, room_id, "WORKER_UNAVAILABLE"@);
    if t.rooms.contains_key(room_id) && t.rooms[room_id].mode != RoomMode::Upgrading {
        let room = t.rooms[room_id];
        let stayed = match room.pending_join {
            Some(join) => room.without_member(join.client_id),
            None => room,
        };
        if room.pending_join is Some {
            lemma_fewer_members(room, room.pending_join->0.client_id);
        }
        let failed = Room {
            mode: RoomMode::Failed,
            pending_join: None,
            pending_leave: None,
            ..stayed
        };
        assert(failed.inv());
        lemma_with_room(t, room_id, failed);
    }
}

/// A room that still needs a worker after rooms were lost is not one of them, and is
/// as it was.
proof fn lemma_lose_rooms_at(t: Table, rooms: Seq<u64>, room_id: u64)
    requires
        t.inv(),
        t.lose_rooms(rooms).rooms.contains_key(room_id),
        t.lose_rooms(rooms).rooms[room_id].needs_worker(),
    ensures
        !rooms.contains(room_id),
        t.rooms.contains_key(room_id),
        t.rooms[room_id] == t.lose_rooms(rooms).rooms[room_id],
    decreases rooms.len(),
{
    if rooms.len() > 0 {
        let front = rooms.drop_last();
        let lost = rooms.last();
        let u = t.lose_rooms(front);
        lemma_lose_rooms(t, front);
        super::laws::upgrades::lemma_abort_upgrade_rooms(u, lost, "WORKER_UNAVAILABLE"@);
        assert(room_id != lost);
        lemma_lose_rooms_at(t, front, room_id);
        assert(!rooms.contains(room_id)) by {
            if rooms.contains(room_id) {
                let k = choose|k: int| 0 <= k < rooms.len() && rooms[k] == room_id;
                assert(front[k] == room_id);
            }
        }
    }
}

proof fn lemma_expire_worker(t: Table, instance_id: Text)
    requires
        t.inv(),
    ensures
        t.expire_worker(instance_id).inv(),
{
    let rooms = if t.workers.contains_key(instance_id) {
        ord_map::in_order::<u64>(t.workers[instance_id].assigned_rooms)
    } else {
        Seq::empty()
    };
    lemma_lose_rooms(t, rooms);
    let u = t.lose_rooms(rooms);
    let ids = u.commands_of(instance_id);
    lemma_without_commands(u, ids);
    let v = u.without_commands(ids);
    if v.workers.contains_key(instance_id) {
        let worker = v.workers[instance_id];
        assert(worker.inv());
        assert forall|r: u64| #[trigger] v.rooms.contains_key(r) && v.rooms[r].needs_worker()
            implies v.rooms[r].assigned_instance != Some(instance_id) by {
            lemma_lose_rooms_at(t, rooms, r);
            if t.rooms[r].assigned_instance == Some(instance_id) {
                assert(t.seats(r, t.rooms[r]));
                ord_map::lemma_in_order::<u64>(t.workers[instance_id].assigned_rooms);
                assert(rooms.contains(r));
            }
        }
        lemma_with_worker(
            v,
            instance_id,
            Worker {
                disconnect_deadline: None,
                assigned_rooms: Set::empty(),
                assigned_clients: 0,
                ..worker
            },
        );
    }
}

pub proof fn lemma_expire_workers(t: Table, instances: Seq<Text>)
    requires
        t.inv(),
    ensures
        t.expire_workers(instances).inv(),
    decreases instances.len(),
{
    if instances.len() > 0 {
        lemma_expire_workers(t, instances.drop_last());
        lemma_expire_worker(t.expire_workers(instances.drop_last()), instances.last());
    }
}

proof fn lemma_commit_downgrade(t: Table, room_id: u64)
    requires
        t.inv(),
        t.rooms.contains_key(room_id),
        t.rooms[room_id].downgrade_eligible(),
    ensures
        t.commit_downgrade(room_id).0.inv(),
{
    let old = t.rooms[room_id];
    let room = Room {
        mode: RoomMode::P2p,
        signal_epoch: model::increment(old.signal_epoch),
        downgrade_deadline: None,
        assigned_instance: None,
        ..old
    };
    let initiator = old.clients()[0];
    let direct = room.with_initiator(Some(initiator));
    assert(direct.members.dom() =~= old.members.dom());
    assert(direct.inv());
    lemma_with_room(t, room_id, direct);
    let u = t.with_room(room_id, direct);
    if old.assigned_instance is Some {
        let instance_id = old.assigned_instance->0;
        lemma_released(u, instance_id, room_id, old.members.dom().len());
        lemma_leave_all(
            u.released(instance_id, room_id, old.members.dom().len()),
            instance_id,
            t.connection(instance_id),
            room_id,
            old.assignment_epoch,
            old.projections(),
        );
    }
}

pub proof fn lemma_sweep_room(t: Table, now: Instant, room_id: u64)
    requires
        t.inv(),
    ensures
        t.sweep_room(now, room_id).0.inv(),
{
    if t.rooms.contains_key(room_id) {
        let room = t.rooms[room_id];
        let expired = room.expired_clients(now);
        if room.downgrade_eligible() {
            lemma_commit_downgrade(t, room_id);
        }
        if !room.downgrade_eligible() {
            lemma_with_room(t, room_id, Room { downgrade_deadline: None, ..room });
        }
        if expired.len() > 0 {
            ord_map::lemma_in_order::<u64>(room.members.dom());
            seqs::lemma_filter_contains(room.clients(), |c: u64| room.members[c].expired(now));
            assert(expired.contains(expired[0]));
            assert(room.members.dom().contains(expired[0]));
            lemma_issue_sfu_leave(t, room_id, expired[0], LeaveReason::Disconnected);
            lemma_with_grace(t, now, room_id, expired[0]);
        }
        if room.mode == RoomMode::P2p {
            let left = room.without_expired(now);
            vstd::set_lib::lemma_len_subset(left.members.dom(), room.members.dom());
            assert(left.inv());
            lemma_promoted(left);
            lemma_with_room(t, room_id, left);
            lemma_with_room(t, room_id, left.promoted());
            lemma_without_room(t, room_id);
        }
    }
}

pub proof fn lemma_sweep_rooms(t: Table, now: Instant, rooms: Seq<u64>)
    requires
        t.inv(),
    ensures
        t.sweep_rooms(now, rooms).0.inv(),
    decreases rooms.len(),
{
    if rooms.len() > 0 {
        lemma_sweep_rooms(t, now, rooms.drop_last());
        lemma_sweep_room(t.sweep_rooms(now, rooms.drop_last()).0, now, rooms.last());
    }
}

/// The passing of time keeps the table in order.
pub proof fn law_timeout_keeps_inv(t: Table, now: Instant)
    requires
        t.inv(),
    ensures
        t.handle_timeout(now).0.inv(),
{
    lemma_expire_workers(t, t.expired_workers(now));
    let u = t.expire_workers(t.expired_workers(now));
    lemma_sweep_rooms(u, now, ord_map::in_order::<u64>(u.rooms.dom()));
}

/// A new table and a cleared one are in order.
pub proof fn law_start_has_inv(t: Table, reconnect_grace: Duration)
    ensures
        Table::initial(reconnect_grace).inv(),
        t.cleared().inv(),
{
    let i = Table::initial(reconnect_grace);
    let c = t.cleared();
    assert(i.unacknowledged_commands.dom() =~= i.pending_commands.dom());
    assert(i.command_workers.dom() =~= i.pending_commands.dom());
    assert(c.unacknowledged_commands.dom() =~= c.pending_commands.dom());
    assert(c.command_workers.dom() =~= c.pending_commands.dom());
}

} // verus!
