//! What browsers and room servers do to the members of a V2 room.

use super::news;
use crate::ord_map;
use crate::room::laws::clients::at_most;
use crate::seqs::Text;
use crate::sfu;
use crate::sfu::{CommandKindView, CommandView, LeaveReason, OutputView};
use crate::time::Instant;
use crate::v2::model::{Member, Pending, Room, Table};
use crate::v2::{
    model, ActionView, AdmissionResultView, AdmissionView, DeliveryView, PendingJoin,
    PendingLeave, Promotion, RegistrationView, RemovalResult, RoomMode, SendResultView,
    MAX_QUEUED_MESSAGES,
};
use vstd::prelude::*;

verus! {

/// The number of the stay that an admission starts: one more than the last, up to the
/// largest.
pub open spec fn is_next_stay(t: Table, room_id: u64, client_id: u64, lifecycle_id: u64) -> bool {
    if t.lifecycle_ids.contains_key((room_id, client_id)) {
        let last = t.lifecycle_ids[(room_id, client_id)];
        if last < u64::MAX {
            lifecycle_id == last + 1
        } else {
            lifecycle_id == last
        }
    } else {
        lifecycle_id == 1
    }
}

/// Whether a member was just admitted: not connected, with nothing queued, with the grace
/// to connect and with the number of a new stay.
pub open spec fn is_admitted(
    t: Table,
    member: Member,
    now: Instant,
    room_id: u64,
    client_id: u64,
    token: Text,
) -> bool {
    &&& member.token == token
    &&& !member.registered
    &&& member.queued_messages.len() == 0
    &&& member.reconnect_deadline == Some(at_most(now, t.reconnect_grace))
    &&& is_next_stay(t, room_id, client_id, member.lifecycle_id)
}

/// Whether a worker is known and has this connection.
pub open spec fn is_connected(t: Table, instance_id: Text, connection_id: u64) -> bool {
    &&& t.workers.contains_key(instance_id)
    &&& t.workers[instance_id].connection_id == Some(connection_id)
}

/// Whether no worker is connected that has the room.
pub open spec fn is_cut_off(t: Table, room: Room) -> bool {
    match room.assigned_instance {
        Some(i) => !t.workers.contains_key(i) || t.workers[i].connection_id is None,
        None => true,
    }
}

/// The table after a command was sent to a worker under the next number, and is waited for.
pub open spec fn sends(
    t: Table,
    u: Table,
    instance_id: Text,
    connection_id: u64,
    kind: CommandKindView,
    pending: Pending,
) -> bool {
    let id = t.next_sfu_request_id;
    let command = CommandView { request_id: id, command: kind };
    &&& u.actions == t.actions.push(ActionView::Sfu(OutputView::Command { connection_id, command }))
    &&& u.pending_commands == t.pending_commands.insert(id, pending)
    &&& u.unacknowledged_commands == t.unacknowledged_commands.insert(id, command)
    &&& u.command_workers == t.command_workers.insert(id, instance_id)
    &&& u.next_sfu_request_id == (if id < u64::MAX {
        (id + 1) as u64
    } else {
        id
    })
}

/// The table in which nothing but rooms and stays has changed.
pub open spec fn sends_nothing(t: Table, u: Table) -> bool {
    &&& u.actions == t.actions
    &&& u.workers == t.workers
    &&& u.pending_commands == t.pending_commands
    &&& u.unacknowledged_commands == t.unacknowledged_commands
    &&& u.command_workers == t.command_workers
    &&& u.next_sfu_request_id == t.next_sfu_request_id
    &&& u.reconnect_grace == t.reconnect_grace
    &&& u.downgrade_dwell == t.downgrade_dwell
}

// Admission

/// The first client of a room is admitted at once to a direct room, as its offerer and
/// under epoch zero.
pub proof fn law_first_admission_opens_the_room(
    t: Table,
    request_id: u64,
    now: Instant,
    room_id: u64,
    client_id: u64,
    token: Text,
)
    requires
        !t.rooms.contains_key(room_id),
    ensures
        ({
            let (u, result) = t.admit_client(request_id, now, room_id, client_id, token);
            let room = u.rooms[room_id];
            let member = room.members[client_id];
            &&& result == Ok::<AdmissionResultView, Text>(
                AdmissionResultView::Complete(
                    AdmissionView {
                        mode: RoomMode::P2p,
                        signal_epoch: 0,
                        admission_token: token,
                        is_initiator: Some(true),
                    },
                ),
            )
            &&& sends_nothing(t, u)
            &&& u.rooms == t.rooms.insert(room_id, room)
            &&& u.lifecycle_ids == t.lifecycle_ids.insert(
                (room_id, client_id),
                member.lifecycle_id,
            )
            &&& room.members == Map::<u64, Member>::empty().insert(client_id, member)
            &&& is_admitted(t, member, now, room_id, client_id, token)
            &&& member.is_initiator
            &&& room == (Room {
                members: room.members,
                mode: RoomMode::P2p,
                signal_epoch: 0,
                assignment_epoch: 0,
                assigned_instance: None,
                upgrade: None,
                pending_join: None,
                pending_leave: None,
                downgrade_deadline: None,
            })
        }),
{
}

/// A second client is admitted at once to a direct room, under its epoch, and does not
/// offer; whoever was there stays as it was.
pub proof fn law_second_admission_joins_the_room(
    t: Table,
    request_id: u64,
    now: Instant,
    room_id: u64,
    client_id: u64,
    token: Text,
)
    requires
        t.rooms.contains_key(room_id),
        t.rooms[room_id].mode == RoomMode::P2p,
        t.rooms[room_id].members.dom().len() < 2,
        !t.rooms[room_id].members.contains_key(client_id),
    ensures
        ({
            let room = t.rooms[room_id];
            let (u, result) = t.admit_client(request_id, now, room_id, client_id, token);
            let member = u.rooms[room_id].members[client_id];
            &&& result == Ok::<AdmissionResultView, Text>(
                AdmissionResultView::Complete(
                    AdmissionView {
                        mode: RoomMode::P2p,
                        signal_epoch: room.signal_epoch,
                        admission_token: token,
                        is_initiator: Some(false),
                    },
                ),
            )
            &&& sends_nothing(t, u)
            &&& u.rooms == t.rooms.insert(
                room_id,
                Room { members: room.members.insert(client_id, member), ..room },
            )
            &&& u.lifecycle_ids == t.lifecycle_ids.insert(
                (room_id, client_id),
                member.lifecycle_id,
            )
            &&& is_admitted(t, member, now, room_id, client_id, token)
            &&& !member.is_initiator
        }),
{
}

/// Who is not admitted, and why: a member, anybody while the room is moving to its worker
/// or waits there for another member, and anybody to a room that has failed or whose
/// worker is away. Nothing changes.
pub proof fn law_admission_is_refused(
    t: Table,
    request_id: u64,
    now: Instant,
    room_id: u64,
    client_id: u64,
    token: Text,
)
    requires
        t.rooms.contains_key(room_id),
    ensures
        ({
            let room = t.rooms[room_id];
            let member = room.members.contains_key(client_id);
            let (u, result) = t.admit_client(request_id, now, room_id, client_id, token);
            let waits = room.pending_join is Some || room.pending_leave is Some;
            &&& member ==> u == t && result == Err::<AdmissionResultView, Text>(
                "DUPLICATE_CLIENT"@,
            )
            &&& !member && room.mode == RoomMode::Upgrading ==> u == t && result == Err::<
                AdmissionResultView,
                Text,
            >("ROOM_TRANSITION"@)
            &&& !member && room.mode == RoomMode::Failed ==> u == t && result == Err::<
                AdmissionResultView,
                Text,
            >("WORKER_UNAVAILABLE"@)
            &&& !member && room.mode == RoomMode::Sfu && waits ==> u == t && result == Err::<
                AdmissionResultView,
                Text,
            >("ROOM_TRANSITION"@)
            &&& !member && room.mode == RoomMode::Sfu && !waits && is_cut_off(t, room) ==> u == t
                && result == Err::<AdmissionResultView, Text>("WORKER_UNAVAILABLE"@)
        }),
{
}

/// A client is admitted to an SFU room once its worker has taken it: until then the room
/// waits for it, as a member, and does not go back. The worker is asked to take it, under
/// the number of its stay and the epoch of the assignment.
pub proof fn law_sfu_admission_asks_the_worker(
    t: Table,
    request_id: u64,
    now: Instant,
    room_id: u64,
    client_id: u64,
    token: Text,
    instance_id: Text,
    connection_id: u64,
)
    requires
        t.rooms.contains_key(room_id),
        t.rooms[room_id].mode == RoomMode::Sfu,
        t.rooms[room_id].pending_join is None,
        t.rooms[room_id].pending_leave is None,
        t.rooms[room_id].assigned_instance == Some(instance_id),
        !t.rooms[room_id].members.contains_key(client_id),
        is_connected(t, instance_id, connection_id),
    ensures
        ({
            let room = t.rooms[room_id];
            let (u, result) = t.admit_client(request_id, now, room_id, client_id, token);
            let member = u.rooms[room_id].members[client_id];
            let join = sfu::JoinMember {
                room_id,
                client_id,
                lifecycle_id: member.lifecycle_id,
                assignment_epoch: room.assignment_epoch,
            };
            &&& result == Ok::<AdmissionResultView, Text>(AdmissionResultView::Pending)
            &&& u.workers == t.workers
            &&& u.rooms == t.rooms.insert(
                room_id,
                Room {
                    members: room.members.insert(client_id, member),
                    pending_join: Some(
                        PendingJoin { authority_request_id: request_id, client_id },
                    ),
                    downgrade_deadline: None,
                    ..room
                },
            )
            &&& u.lifecycle_ids == t.lifecycle_ids.insert(
                (room_id, client_id),
                member.lifecycle_id,
            )
            &&& is_admitted(t, member, now, room_id, client_id, token)
            &&& !member.is_initiator
            &&& sends(
                t,
                u,
                instance_id,
                connection_id,
                CommandKindView::Join(join),
                Pending::SfuJoin { instance_id, join },
            )
        }),
{
}

/// A third client of a direct room makes it upgrade: everybody starts a new stay and is
/// otherwise as before, the room is under its signal epoch still, and all are to join the
/// worker in the order of their numbers, the new one last.
pub proof fn law_upgrade_keeps_the_members(
    t: Table,
    request_id: u64,
    now: Instant,
    room_id: u64,
    client_id: u64,
    token: Text,
)
    requires
        t.inv(),
        t.rooms.contains_key(room_id),
        t.rooms[room_id].mode == RoomMode::P2p,
        t.rooms[room_id].members.dom().len() == 2,
        !t.rooms[room_id].members.contains_key(client_id),
        t.admit_client(request_id, now, room_id, client_id, token).1 is Ok,
    ensures
        ({
            let room = t.rooms[room_id];
            let u = t.admit_client(request_id, now, room_id, client_id, token).0;
            let after = u.rooms[room_id];
            let upgrade = after.upgrade->0;
            let ordered = upgrade.ordered_clients;
            &&& u.rooms == t.rooms.insert(room_id, after)
            &&& after == (Room {
                members: after.members,
                mode: RoomMode::Upgrading,
                assignment_epoch: after.assignment_epoch,
                assigned_instance: after.assigned_instance,
                upgrade: after.upgrade,
                ..room
            })
            &&& after.assignment_epoch == (if room.assignment_epoch < u64::MAX {
                (room.assignment_epoch + 1) as u64
            } else {
                u64::MAX
            })
            &&& after.members.dom() == room.members.dom().insert(client_id)
            &&& is_admitted(t, after.members[client_id], now, room_id, client_id, token)
            &&& !after.members[client_id].is_initiator
            &&& forall|c: u64| #[trigger]
                room.members.contains_key(c) ==> after.members[c] == (Member {
                    lifecycle_id: after.members[c].lifecycle_id,
                    ..room.members[c]
                }) && is_next_stay(t, room_id, c, after.members[c].lifecycle_id)
            &&& forall|c: u64| #[trigger]
                after.members.contains_key(c) ==> u.lifecycle_ids.contains_key((room_id, c))
                    && u.lifecycle_ids[(room_id, c)] == after.members[c].lifecycle_id
            &&& forall|k: (u64, u64)| #[trigger]
                t.lifecycle_ids.contains_key(k) && k.0 != room_id ==> u.lifecycle_ids.contains_key(
                    k,
                ) && u.lifecycle_ids[k] == t.lifecycle_ids[k]
            &&& after.upgrade is Some
            &&& upgrade.authority_request_id == request_id
            &&& upgrade.joining_client_id == client_id
            &&& upgrade.joined_clients.len() == 0
            &&& upgrade.next_client == 0
            &&& ordered.len() == 3
            &&& ordered[0] < ordered[1]
            &&& room.members.contains_key(ordered[0])
            &&& room.members.contains_key(ordered[1])
            &&& ordered[2] == client_id
            &&& u.actions.last() == ActionView::Sfu(
                OutputView::Command {
                    connection_id: t.workers[after.assigned_instance->0].connection_id->0,
                    command: CommandView {
                        request_id: t.next_sfu_request_id,
                        command: CommandKindView::Join(
                            sfu::JoinMember {
                                room_id,
                                client_id: ordered[0],
                                lifecycle_id: after.members[ordered[0]].lifecycle_id,
                                assignment_epoch: after.assignment_epoch,
                            },
                        ),
                    },
                },
            )
        }),
{
    let room = t.rooms[room_id];
    super::upgrades::law_third_join_starts_upgrade(
        t,
        request_id,
        now,
        room_id,
        client_id,
        token,
    );
    let u = t.admit_client(request_id, now, room_id, client_id, token).0;
    let after = u.rooms[room_id];
    assert(after.members.dom() =~= room.members.dom().insert(client_id));
    news::lemma_clients(room);
    ord_map::lemma_in_order::<u64>(room.members.dom());
    let q = room.clients();
    assert(q.len() == 2);
    assert(q.contains(q[0]));
    assert(q.contains(q[1]));
    assert(<u64 as crate::key::Key>::before(q[0], q[1]));
}

// Registration

/// Which browsers are refused, and why: those that show no token of a member, those that
/// come while the room is moving, and those of a client that has one. Nothing changes.
pub proof fn law_registration_is_refused(t: Table, room_id: u64, client_id: u64, token: Text)
    ensures
        ({
            let (u, result) = t.register(room_id, client_id, token);
            let room = t.rooms[room_id];
            let known = t.rooms.contains_key(room_id);
            let admitted = room.members.contains_key(client_id) && room.members[client_id].token
                == token;
            let moving = room.mode == RoomMode::Upgrading;
            &&& !known || !moving && !admitted ==> u == t && result == Err::<RegistrationView, Text>(
                "UNAUTHORIZED"@,
            )
            &&& known && moving ==> u == t && result == Err::<RegistrationView, Text>(
                "ROOM_TRANSITION"@,
            )
            &&& known && !moving && admitted && room.members[client_id].registered ==> u == t
                && result == Err::<RegistrationView, Text>("Duplicated registration"@)
        }),
{
}

/// A browser that shows the token is connected, and its member is not waited for any more.
/// It learns the mode and the epoch of the room. In a direct room it learns also whether it
/// offers, and gets what its peer has queued, which is not queued any more; in any other
/// room neither.
pub proof fn law_registration_connects_the_member(
    t: Table,
    room_id: u64,
    client_id: u64,
    token: Text,
    peer_id: u64,
)
    requires
        t.inv(),
        t.rooms.contains_key(room_id),
        t.rooms[room_id].mode != RoomMode::Upgrading,
        t.rooms[room_id].members.contains_key(client_id),
        t.rooms[room_id].members[client_id].token == token,
        !t.rooms[room_id].members[client_id].registered,
    ensures
        ({
            let room = t.rooms[room_id];
            let (u, result) = t.register(room_id, client_id, token);
            let after = u.rooms[room_id];
            let registration = result->Ok_0;
            let direct = room.mode == RoomMode::P2p;
            &&& result is Ok
            &&& u == (Table { rooms: t.rooms.insert(room_id, after), ..t })
            &&& after == (Room { members: after.members, ..room })
            &&& after.members.dom() == room.members.dom()
            &&& after.members[client_id] == (Member {
                registered: true,
                reconnect_deadline: None,
                ..room.members[client_id]
            })
            &&& forall|c: u64| #[trigger]
                room.members.contains_key(c) && c != client_id ==> after.members[c] == (if direct {
                    Member { queued_messages: Seq::empty(), ..room.members[c] }
                } else {
                    room.members[c]
                })
            &&& registration.mode == room.mode
            &&& registration.signal_epoch == room.signal_epoch
            &&& registration.is_initiator == (if direct {
                Some(room.members[client_id].is_initiator)
            } else {
                None
            })
            &&& !direct ==> registration.queued_messages == Seq::<Text>::empty()
            &&& direct && (forall|c: u64| #[trigger]
                room.members.contains_key(c) ==> c == client_id)
                ==> registration.queued_messages == Seq::<Text>::empty()
            &&& direct && peer_id != client_id && room.members.contains_key(peer_id)
                ==> registration.queued_messages == room.members[peer_id].queued_messages
        }),
{
    let room = t.rooms[room_id];
    let u = t.register(room_id, client_id, token).0;
    let after = u.rooms[room_id];
    assert(after.members.dom() =~= room.members.dom());
    let here = room.with_member(
        client_id,
        Member { registered: true, reconnect_deadline: None, ..room.members[client_id] },
    );
    let f = model::queue_of(room.members);
    news::lemma_others(room, client_id);
    let others = room.others(client_id);
    if forall|c: u64| #[trigger] room.members.contains_key(c) ==> c == client_id {
        if others.len() > 0 {
            assert(others.contains(others[0]));
        }
        assert(others.map_values(f) =~= Seq::empty());
    }
    if room.mode == RoomMode::P2p && peer_id != client_id && room.members.contains_key(peer_id) {
        lemma_single_peer(room, client_id, peer_id);
        assert(others.map_values(f) =~= seq![room.members[peer_id].queued_messages]);
        others.map_values(f).lemma_flatten_one_element();
    }
}

/// Of a direct room, a client has one peer at most.
proof fn lemma_single_peer(room: Room, client_id: u64, peer_id: u64)
    requires
        room.inv(),
        room.members.dom().len() <= 2,
        room.members.contains_key(client_id),
        room.members.contains_key(peer_id),
        peer_id != client_id,
    ensures
        room.others(client_id) == seq![peer_id],
        room.members.dom() == set![client_id, peer_id],
{
    let dom = room.members.dom();
    assert(dom.contains(client_id));
    assert(dom.contains(peer_id));
    assert(set![client_id, peer_id].subset_of(dom));
    assert(set![client_id, peer_id].len() == 2);
    vstd::set_lib::lemma_len_subset(set![client_id, peer_id], dom);
    vstd::set_lib::lemma_subset_equality(set![client_id, peer_id], dom);
    news::lemma_others(room, client_id);
    let others = room.others(client_id);
    assert(others.contains(peer_id));
    assert forall|j: int| 0 <= j < others.len() implies others[j] == peer_id by {
        assert(others.contains(others[j]));
        assert(dom.contains(others[j]));
    }
    if others.len() > 1 {
        assert(others[0] == others[1]);
    }
    assert(others =~= seq![peer_id]);
}

// Messages

/// What becomes of a message of a member under the epoch of a direct room: its connected
/// peer gets it, whole, and nothing changes; otherwise it waits with its sender behind what
/// waits there, up to the limit, at which the sender is told.
pub proof fn law_direct_message_is_delivered_or_queued(
    t: Table,
    room_id: u64,
    client_id: u64,
    peer_id: u64,
    message: Text,
)
    requires
        t.inv(),
        t.rooms.contains_key(room_id),
        t.rooms[room_id].mode == RoomMode::P2p,
        t.rooms[room_id].members.contains_key(client_id),
    ensures
        ({
            let room = t.rooms[room_id];
            let member = room.members[client_id];
            let (u, result) = t.send(room_id, client_id, room.signal_epoch, message);
            let queued = Table {
                rooms: t.rooms.insert(
                    room_id,
                    Room {
                        members: room.members.insert(
                            client_id,
                            Member {
                                queued_messages: member.queued_messages.push(message),
                                ..member
                            },
                        ),
                        ..room
                    },
                ),
                ..t
            };
            let waits = if member.queued_messages.len() < MAX_QUEUED_MESSAGES {
                u == queued && result == Ok::<SendResultView, Text>(SendResultView::P2p(None))
            } else {
                u == t && result == Err::<SendResultView, Text>("RESOURCE_EXHAUSTED"@)
            };
            &&& (forall|c: u64| #[trigger] room.members.contains_key(c) ==> c == client_id)
                ==> waits
            &&& peer_id != client_id && room.members.contains_key(peer_id) ==> if room.members[
                peer_id
            ].registered {
                u == t && result == Ok::<SendResultView, Text>(
                    SendResultView::P2p(
                        Some(DeliveryView { room_id, client_id: peer_id, message }),
                    ),
                )
            } else {
                waits
            }
        }),
{
    let room = t.rooms[room_id];
    news::lemma_others(room, client_id);
    let others = room.others(client_id);
    if forall|c: u64| #[trigger] room.members.contains_key(c) ==> c == client_id {
        if others.len() > 0 {
            assert(others.contains(others[0]));
        }
    }
    if peer_id != client_id && room.members.contains_key(peer_id) {
        lemma_single_peer(room, client_id, peer_id);
    }
}

/// A message of a member under the epoch of an SFU room goes to the worker of the room,
/// whole, with the numbers of the stay and the assignment; while the worker is away the
/// sender is told. A stranger to the room is told in any mode but while the room moves.
pub proof fn law_sfu_message_goes_to_the_worker(
    t: Table,
    room_id: u64,
    client_id: u64,
    message: Text,
    instance_id: Text,
    connection_id: u64,
)
    requires
        t.rooms.contains_key(room_id),
        t.rooms[room_id].mode == RoomMode::Sfu,
    ensures
        ({
            let room = t.rooms[room_id];
            let (u, result) = t.send(room_id, client_id, room.signal_epoch, message);
            &&& !room.members.contains_key(client_id) ==> u == t && result == Err::<
                SendResultView,
                Text,
            >("CLIENT_NOT_FOUND"@)
            &&& room.members.contains_key(client_id) && is_cut_off(t, room) ==> u == t && result
                == Err::<SendResultView, Text>("WORKER_UNAVAILABLE"@)
            &&& room.members.contains_key(client_id) && room.assigned_instance == Some(instance_id)
                && is_connected(t, instance_id, connection_id) ==> {
                &&& result == Ok::<SendResultView, Text>(SendResultView::Sfu)
                &&& u.rooms == t.rooms
                &&& u.workers == t.workers
                &&& u.lifecycle_ids == t.lifecycle_ids
                &&& sends(
                    t,
                    u,
                    instance_id,
                    connection_id,
                    CommandKindView::Signal(
                        sfu::SignalView {
                            room_id,
                            client_id,
                            lifecycle_id: room.members[client_id].lifecycle_id,
                            assignment_epoch: room.assignment_epoch,
                            message_json: message,
                            sdp_request_id: None,
                        },
                    ),
                    Pending::Signal,
                )
            }
        }),
{
}

/// A message for a room that does not exist, or of a stranger to a direct one under its
/// epoch, is an error and changes nothing.
pub proof fn law_message_of_a_stranger_is_refused(
    t: Table,
    room_id: u64,
    client_id: u64,
    signal_epoch: u64,
    message: Text,
)
    requires
        !t.rooms.contains_key(room_id) || t.rooms[room_id].mode != RoomMode::Upgrading
            && t.rooms[room_id].signal_epoch == signal_epoch
            && !t.rooms[room_id].members.contains_key(client_id),
    ensures
        t.send(room_id, client_id, signal_epoch, message) == (
            t,
            Err::<SendResultView, Text>("CLIENT_NOT_FOUND"@),
        ),
{
}

/// A message in a room that has failed, under its epoch, still goes to the other member
/// with the lowest number, if that one is connected, and otherwise waits with its sender.
pub proof fn law_message_in_a_failed_room(
    t: Table,
    room_id: u64,
    client_id: u64,
    peer_id: u64,
    message: Text,
)
    requires
        t.inv(),
        t.rooms.contains_key(room_id),
        t.rooms[room_id].mode == RoomMode::Failed,
        t.rooms[room_id].members.contains_key(client_id),
        t.rooms[room_id].members.contains_key(peer_id),
        peer_id != client_id,
        forall|c: u64| #[trigger]
            t.rooms[room_id].members.contains_key(c) && c != client_id ==> peer_id <= c,
    ensures
        ({
            let room = t.rooms[room_id];
            let member = room.members[client_id];
            let (u, result) = t.send(room_id, client_id, room.signal_epoch, message);
            if room.members[peer_id].registered {
                u == t && result == Ok::<SendResultView, Text>(
                    SendResultView::P2p(
                        Some(DeliveryView { room_id, client_id: peer_id, message }),
                    ),
                )
            } else if member.queued_messages.len() < MAX_QUEUED_MESSAGES {
                &&& result == Ok::<SendResultView, Text>(SendResultView::P2p(None))
                &&& u == (Table {
                    rooms: t.rooms.insert(
                        room_id,
                        Room {
                            members: room.members.insert(
                                client_id,
                                Member {
                                    queued_messages: member.queued_messages.push(message),
                                    ..member
                                },
                            ),
                            ..room
                        },
                    ),
                    ..t
                })
            } else {
                u == t && result == Err::<SendResultView, Text>("RESOURCE_EXHAUSTED"@)
            }
        }),
{
    let room = t.rooms[room_id];
    let p = model::other_than(client_id);
    news::lemma_others(room, client_id);
    ord_map::lemma_in_order::<u64>(room.members.dom());
    super::workers::lemma_filter_ascends(room.clients(), p);
    let others = room.others(client_id);
    assert(others.contains(peer_id));
    assert(others.contains(others[0]));
    let k = choose|k: int| 0 <= k < others.len() && others[k] == peer_id;
    if k > 0 {
        assert(others[0] < others[k]);
    }
}

// Departures

/// A browser that is gone: its member has the grace to come back, and is otherwise as it
/// was, in any room but one whose worker can be told of the leave at once.
pub proof fn law_lost_browser_is_waited_for(t: Table, now: Instant, room_id: u64, client_id: u64)
    requires
        t.rooms.contains_key(room_id),
        t.rooms[room_id].members.contains_key(client_id),
        t.rooms[room_id].members[client_id].registered,
        t.rooms[room_id].mode != RoomMode::Sfu || t.rooms[room_id].pending_leave is Some
            || is_cut_off(t, t.rooms[room_id]),
    ensures
        ({
            let room = t.rooms[room_id];
            t.deregister(now, room_id, client_id) == (Table {
                rooms: t.rooms.insert(
                    room_id,
                    Room {
                        members: room.members.insert(
                            client_id,
                            Member {
                                registered: false,
                                reconnect_deadline: Some(at_most(now, t.reconnect_grace)),
                                ..room.members[client_id]
                            },
                        ),
                        ..room
                    },
                ),
                ..t
            })
        }),
{
    let room = t.rooms[room_id];
    let done = Room {
        members: room.members.insert(
            client_id,
            Member {
                registered: false,
                reconnect_deadline: Some(at_most(now, t.reconnect_grace)),
                ..room.members[client_id]
            },
        ),
        ..room
    };
    let u = t.deregister(now, room_id, client_id);
    assert(u.rooms[room_id].members =~= done.members);
    assert(u.rooms =~= t.rooms.insert(room_id, done));
}

/// A browser of an SFU room that is gone: the worker is told at once that the member has
/// left, with the numbers of its stay and of the assignment, and the room waits for the
/// answer; nobody asked for it.
pub proof fn law_lost_sfu_browser_leaves_the_worker(
    t: Table,
    now: Instant,
    room_id: u64,
    client_id: u64,
    instance_id: Text,
    connection_id: u64,
)
    requires
        t.rooms.contains_key(room_id),
        t.rooms[room_id].members.contains_key(client_id),
        t.rooms[room_id].members[client_id].registered,
        t.rooms[room_id].mode == RoomMode::Sfu,
        t.rooms[room_id].pending_leave is None,
        t.rooms[room_id].assigned_instance == Some(instance_id),
        is_connected(t, instance_id, connection_id),
    ensures
        ({
            let room = t.rooms[room_id];
            let member = room.members[client_id];
            let u = t.deregister(now, room_id, client_id);
            &&& u.rooms == t.rooms.insert(
                room_id,
                Room {
                    members: room.members.insert(
                        client_id,
                        Member { registered: false, ..member },
                    ),
                    pending_leave: Some(PendingLeave { authority_request_id: None, client_id }),
                    ..room
                },
            )
            &&& u.workers == t.workers
            &&& u.lifecycle_ids == t.lifecycle_ids
            &&& sends(
                t,
                u,
                instance_id,
                connection_id,
                CommandKindView::Leave(
                    sfu::LeaveMember {
                        room_id,
                        client_id,
                        lifecycle_id: member.lifecycle_id,
                        assignment_epoch: room.assignment_epoch,
                        reason: LeaveReason::Disconnected,
                    },
                ),
                Pending::SfuLeave {
                    instance_id,
                    room_id,
                    client_id,
                    lifecycle_id: member.lifecycle_id,
                    assignment_epoch: room.assignment_epoch,
                },
            )
        }),
{
    let u = t.deregister(now, room_id, client_id);
    let room = t.rooms[room_id];
    let done = Room {
        members: room.members.insert(
            client_id,
            Member { registered: false, ..room.members[client_id] },
        ),
        pending_leave: Some(PendingLeave { authority_request_id: None, client_id }),
        ..room
    };
    assert(u.rooms =~= t.rooms.insert(room_id, done));
}

/// The loss of a browser that was not connected changes nothing.
pub proof fn law_loss_of_a_stranger_is_ignored(
    t: Table,
    now: Instant,
    room_id: u64,
    client_id: u64,
)
    requires
        !(t.rooms.contains_key(room_id) && t.rooms[room_id].members.contains_key(client_id)
            && t.rooms[room_id].members[client_id].registered),
    ensures
        t.deregister(now, room_id, client_id) == t,
{
}

/// Which removals are refused, and why. Nothing changes.
pub proof fn law_removal_is_refused(
    t: Table,
    request_id: u64,
    room_id: u64,
    client_id: u64,
    token: Text,
)
    ensures
        ({
            let (u, result) = t.remove(request_id, room_id, client_id, token);
            let room = t.rooms[room_id];
            let known = t.rooms.contains_key(room_id);
            let member = known && room.members.contains_key(client_id);
            let allowed = member && room.members[client_id].token == token;
            let waits = room.mode == RoomMode::Upgrading || room.pending_join is Some
                || room.pending_leave is Some;
            &&& !known ==> u == t && result == Err::<RemovalResult, Text>("ROOM_NOT_FOUND"@)
            &&& known && !member ==> u == t && result == Err::<RemovalResult, Text>(
                "CLIENT_NOT_FOUND"@,
            )
            &&& member && !allowed ==> u == t && result == Err::<RemovalResult, Text>(
                "UNAUTHORIZED"@,
            )
            &&& allowed && waits ==> u == t && result == Err::<RemovalResult, Text>(
                "ROOM_TRANSITION"@,
            )
            &&& allowed && !waits && room.mode == RoomMode::Sfu && is_cut_off(t, room) ==> u == t
                && result == Err::<RemovalResult, Text>("WORKER_UNAVAILABLE"@)
        }),
{
}

/// A removal from a direct or a failed room is done at once: the member is gone, and with
/// the last one the room is. The one that is left of a direct room offers, without what it
/// had queued, and is told if it is connected; a failed room promotes nobody.
pub proof fn law_removal_takes_the_member(
    t: Table,
    request_id: u64,
    room_id: u64,
    client_id: u64,
    survivor_id: u64,
)
    requires
        t.inv(),
        t.rooms.contains_key(room_id),
        t.rooms[room_id].mode == RoomMode::P2p || t.rooms[room_id].mode == RoomMode::Failed
            && t.rooms[room_id].pending_join is None && t.rooms[room_id].pending_leave is None,
        t.rooms[room_id].members.contains_key(client_id),
    ensures
        ({
            let room = t.rooms[room_id];
            let direct = room.mode == RoomMode::P2p;
            let (u, result) = t.remove(
                request_id,
                room_id,
                client_id,
                room.members[client_id].token,
            );
            let after = u.rooms[room_id];
            &&& result is Ok
            &&& u == (Table { rooms: u.rooms, ..t })
            &&& room.members.dom().len() == 1 ==> u.rooms == t.rooms.remove(room_id) && result
                == Ok::<RemovalResult, Text>(RemovalResult::Complete(None))
            &&& room.members.dom().len() > 1 ==> {
                &&& u.rooms == t.rooms.insert(room_id, after)
                &&& after == (Room { members: after.members, ..room })
                &&& after.members.dom() == room.members.dom().remove(client_id)
            }
            &&& !direct ==> result == Ok::<RemovalResult, Text>(RemovalResult::Complete(None)) && (
            survivor_id != client_id && room.members.contains_key(survivor_id)
                ==> after.members[survivor_id] == room.members[survivor_id])
            &&& direct && survivor_id != client_id && room.members.contains_key(survivor_id) ==> {
                let survivor = room.members[survivor_id];
                &&& after.members[survivor_id] == (Member {
                    is_initiator: true,
                    queued_messages: Seq::empty(),
                    ..survivor
                })
                &&& result == Ok::<RemovalResult, Text>(
                    RemovalResult::Complete(
                        if survivor.registered {
                            Some(
                                Promotion {
                                    room_id,
                                    client_id: survivor_id,
                                    signal_epoch: room.signal_epoch,
                                },
                            )
                        } else {
                            None
                        },
                    ),
                )
            }
        }),
{
    let room = t.rooms[room_id];
    let left = room.without_member(client_id);
    assert(left.members.dom() =~= room.members.dom().remove(client_id));
    news::lemma_clients(left);
    if left.members.dom().len() == 1 {
        let c = left.clients()[0];
        assert(left.clients().contains(c));
        assert(left.promoted().members.dom() =~= left.members.dom());
    }
    if room.mode == RoomMode::P2p && survivor_id != client_id && room.members.contains_key(
        survivor_id,
    ) {
        lemma_single_peer(room, client_id, survivor_id);
        assert(left.members.dom() =~= set![survivor_id]);
        assert(left.members.contains_key(left.clients()[0]));
    }
}

/// A removal from an SFU room is asked of its worker, with the numbers of the stay and of
/// the assignment, and is done when the worker has answered.
pub proof fn law_sfu_removal_asks_the_worker(
    t: Table,
    request_id: u64,
    room_id: u64,
    client_id: u64,
    instance_id: Text,
    connection_id: u64,
)
    requires
        t.rooms.contains_key(room_id),
        t.rooms[room_id].mode == RoomMode::Sfu,
        t.rooms[room_id].pending_join is None,
        t.rooms[room_id].pending_leave is None,
        t.rooms[room_id].assigned_instance == Some(instance_id),
        t.rooms[room_id].members.contains_key(client_id),
        is_connected(t, instance_id, connection_id),
    ensures
        ({
            let room = t.rooms[room_id];
            let member = room.members[client_id];
            let (u, result) = t.remove(request_id, room_id, client_id, member.token);
            &&& result == Ok::<RemovalResult, Text>(RemovalResult::Pending)
            &&& u.rooms == t.rooms.insert(
                room_id,
                Room {
                    pending_leave: Some(
                        PendingLeave { authority_request_id: Some(request_id), client_id },
                    ),
                    ..room
                },
            )
            &&& u.workers == t.workers
            &&& u.lifecycle_ids == t.lifecycle_ids
            &&& sends(
                t,
                u,
                instance_id,
                connection_id,
                CommandKindView::Leave(
                    sfu::LeaveMember {
                        room_id,
                        client_id,
                        lifecycle_id: member.lifecycle_id,
                        assignment_epoch: room.assignment_epoch,
                        reason: LeaveReason::User,
                    },
                ),
                Pending::SfuLeave {
                    instance_id,
                    room_id,
                    client_id,
                    lifecycle_id: member.lifecycle_id,
                    assignment_epoch: room.assignment_epoch,
                },
            )
        }),
{
}

} // verus!
