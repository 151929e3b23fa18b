//! Admission, registration, messages and departures of browsers.

use super::{dwell, upgrades};
use crate::ord_map;
use crate::seqs;
use crate::seqs::Text;
use crate::sfu;
use crate::sfu::{CommandKindView, CommandOk, CommandView, LeaveReason, OutputView};
use crate::time::Instant;
use crate::v2::model::{Member, Room, Table};
use crate::v2::{
    model, ActionView, AdmissionResultView, DeliveryView, Promotion, RemovalResult, RoomMode,
    SendResultView, MAX_QUEUED_MESSAGES,
};
use vstd::prelude::*;

verus! {

/// A browser can register exactly if it shows the token of its own admission, no
/// other browser is registered for the client, and the room is not upgrading. A
/// refused registration changes nothing.
pub proof fn law_registration_needs_the_token(t: Table, room_id: u64, client_id: u64, token: Text)
    ensures
        t.register(room_id, client_id, token).1 is Ok <==> {
            &&& t.is_member(room_id, client_id)
            &&& t.rooms[room_id].mode != RoomMode::Upgrading
            &&& t.rooms[room_id].members[client_id].token == token
            &&& !t.rooms[room_id].members[client_id].registered
        },
        t.register(room_id, client_id, token).1 is Err ==> t.register(room_id, client_id, token).0
            == t,
{
}

/// The token that an admission hands out is the one that opens the registration.
pub proof fn law_admission_opens_registration(
    t: Table,
    authority_request_id: u64,
    now: Instant,
    room_id: u64,
    client_id: u64,
    token: Text,
)
    requires
        t.admit_client(authority_request_id, now, room_id, client_id, token).1 matches Ok(
            AdmissionResultView::Complete(_),
        ),
    ensures
        ({
            let (u, result) = t.admit_client(authority_request_id, now, room_id, client_id, token);
            &&& result->Ok_0->Complete_0.admission_token == token
            &&& u.register(room_id, client_id, token).1 is Ok
            &&& forall|other: Text|
                other != token ==> #[trigger] u.register(room_id, client_id, other).1 is Err
        }),
{
}

/// The first member of a room offers, and the second does not.
pub proof fn law_first_member_offers(
    t: Table,
    request_id: u64,
    now: Instant,
    room_id: u64,
    first_id: u64,
    second_id: u64,
    token: Text,
)
    requires
        !t.rooms.contains_key(room_id),
        first_id != second_id,
    ensures
        ({
            let (one, first) = t.admit_client(request_id, now, room_id, first_id, token);
            let (two, second) = one.admit_client(request_id, now, room_id, second_id, token);
            &&& first == Ok::<AdmissionResultView, Text>(
                AdmissionResultView::direct(0, token, true),
            )
            &&& second == Ok::<AdmissionResultView, Text>(
                AdmissionResultView::direct(0, token, false),
            )
            &&& two.rooms[room_id].members.dom() == set![first_id, second_id]
            &&& two.rooms[room_id].members[first_id].is_initiator
            &&& !two.rooms[room_id].members[second_id].is_initiator
        }),
{
    let one = t.admit_client(request_id, now, room_id, first_id, token).0;
    assert(one.rooms[room_id].members.dom() =~= set![first_id]);
    let two = one.admit_client(request_id, now, room_id, second_id, token).0;
    assert(two.rooms[room_id].members.dom() =~= set![first_id, second_id]);
}

/// Every admission of a client to a room starts a stay with a number of its own, larger
/// than those of the stays before it.
pub proof fn law_each_stay_has_its_own_number(
    t: Table,
    request_id: u64,
    now: Instant,
    room_id: u64,
    client_id: u64,
    token: Text,
)
    requires
        t.admit_client(request_id, now, room_id, client_id, token).1 is Ok,
        t.lifecycle_ids.contains_key((room_id, client_id)) ==> t.lifecycle_ids[(
            room_id,
            client_id,
        )] < u64::MAX,
    ensures
        ({
            let u = t.admit_client(request_id, now, room_id, client_id, token).0;
            let id = u.rooms[room_id].members[client_id].lifecycle_id;
            &&& u.is_member(room_id, client_id)
            &&& u.lifecycle_ids.contains_key((room_id, client_id))
            &&& u.lifecycle_ids[(room_id, client_id)] == id
            &&& t.lifecycle_ids.contains_key((room_id, client_id)) ==> t.lifecycle_ids[(
                room_id,
                client_id,
            )] < id
        }),
{
}

/// A message of another signal epoch, and any message while the room is upgrading,
/// is dropped and changes nothing.
pub proof fn law_stale_epoch_is_dropped(
    t: Table,
    room_id: u64,
    client_id: u64,
    signal_epoch: u64,
    message: Text,
)
    requires
        t.rooms.contains_key(room_id),
        signal_epoch != t.rooms[room_id].signal_epoch || t.rooms[room_id].mode
            == RoomMode::Upgrading,
    ensures
        t.send(room_id, client_id, signal_epoch, message) == (
            t,
            Ok::<SendResultView, Text>(SendResultView::Dropped),
        ),
{
}

/// What a client sends while its direct peer has not registered reaches the peer
/// at its registration, in the order in which it was sent and exactly once.
pub proof fn law_early_messages_are_replayed(
    t: Table,
    room_id: u64,
    client_id: u64,
    peer_id: u64,
    messages: Seq<Text>,
)
    requires
        t.inv(),
        t.rooms.contains_key(room_id),
        t.rooms[room_id].mode == RoomMode::P2p,
        t.rooms[room_id].members.dom() == set![client_id, peer_id],
        client_id != peer_id,
        !t.rooms[room_id].members[peer_id].registered,
        t.rooms[room_id].members[client_id].queued_messages.len() + messages.len()
            <= MAX_QUEUED_MESSAGES,
    ensures
        ({
            let member = t.rooms[room_id].members[client_id];
            let peer = t.rooms[room_id].members[peer_id];
            let sent = send_all(t, room_id, client_id, t.rooms[room_id].signal_epoch, messages);
            let (u, result) = sent.register(room_id, peer_id, peer.token);
            &&& result is Ok
            &&& result->Ok_0.queued_messages == member.queued_messages + messages
            &&& u.rooms[room_id].members[client_id].queued_messages == Seq::<Text>::empty()
        }),
{
    let room = t.rooms[room_id];
    lemma_send_all_queues(t, room_id, client_id, peer_id, messages);
    let sent = send_all(t, room_id, client_id, room.signal_epoch, messages);
    let here = sent.rooms[room_id];
    assert(here.members.dom() =~= set![client_id, peer_id]);
    lemma_single_other(here, peer_id, client_id);
    let queues = here.others(peer_id).map_values(model::queue_of(here.members));
    assert(queues =~= seq![here.members[client_id].queued_messages]);
    queues.lemma_flatten_one_element();
}

/// The table after a client has sent some messages in turn.
pub open spec fn send_all(
    t: Table,
    room_id: u64,
    client_id: u64,
    signal_epoch: u64,
    messages: Seq<Text>,
) -> Table
    decreases messages.len(),
{
    if messages.len() == 0 {
        t
    } else {
        send_all(t, room_id, client_id, signal_epoch, messages.drop_last()).send(
            room_id,
            client_id,
            signal_epoch,
            messages.last(),
        ).0
    }
}

/// In a room of two, the other one is the only other.
proof fn lemma_single_other(room: Room, client_id: u64, other_id: u64)
    requires
        room.members.dom() == set![client_id, other_id] || room.members.dom() == set![
            other_id,
            client_id,
        ],
        client_id != other_id,
    ensures
        room.others(client_id) == seq![other_id],
{
    let dom = room.members.dom();
    ord_map::lemma_in_order::<u64>(dom);
    let q = room.clients();
    let p = model::other_than(client_id);
    ord_map::lemma_ascending_no_duplicates::<u64>(q);
    seqs::lemma_filter_contains(q, p);
    seqs::lemma_filter_no_duplicates(q, p);
    let others = room.others(client_id);
    assert(dom.contains(other_id));
    assert(q.contains(other_id));
    assert(others.contains(other_id));
    assert forall|j: int| 0 <= j < others.len() implies others[j] == other_id by {
        assert(others.contains(others[j]));
        assert(dom.contains(others[j]));
    }
    assert(others.len() == 1) by {
        if others.len() > 1 {
            assert(others[0] == others[1]);
        }
    }
    assert(others =~= seq![other_id]);
}

proof fn lemma_send_all_queues(
    t: Table,
    room_id: u64,
    client_id: u64,
    peer_id: u64,
    messages: Seq<Text>,
)
    requires
        t.rooms.contains_key(room_id),
        t.rooms[room_id].mode == RoomMode::P2p,
        t.rooms[room_id].members.dom() == set![client_id, peer_id],
        client_id != peer_id,
        !t.rooms[room_id].members[peer_id].registered,
        t.rooms[room_id].members[client_id].queued_messages.len() + messages.len()
            <= MAX_QUEUED_MESSAGES,
    ensures
        ({
            let room = t.rooms[room_id];
            let member = room.members[client_id];
            send_all(t, room_id, client_id, room.signal_epoch, messages) == t.with_room(
                room_id,
                room.with_member(
                    client_id,
                    Member { queued_messages: member.queued_messages + messages, ..member },
                ),
            )
        }),
    decreases messages.len(),
{
    let room = t.rooms[room_id];
    let member = room.members[client_id];
    if messages.len() == 0 {
        assert(member.queued_messages + messages =~= member.queued_messages);
        assert(room.members.insert(client_id, member) =~= room.members);
        assert(t.rooms.insert(room_id, room) =~= t.rooms);
    } else {
        let front = messages.drop_last();
        lemma_send_all_queues(t, room_id, client_id, peer_id, front);
        let u = send_all(t, room_id, client_id, room.signal_epoch, front);
        let here = u.rooms[room_id];
        assert(here.members.dom() =~= set![client_id, peer_id]);
        lemma_single_other(here, client_id, peer_id);
        assert((member.queued_messages + front).push(messages.last()) =~= member.queued_messages
            + messages);
        let done = room.with_member(
            client_id,
            Member { queued_messages: member.queued_messages + messages, ..member },
        );
        assert(here.members.insert(client_id, done.members[client_id]) =~= done.members);
        assert(u.rooms.insert(room_id, done) =~= t.rooms.insert(room_id, done));
    }
}

/// A registered peer in a direct room gets a message at once.
pub proof fn law_message_reaches_registered_peer(
    t: Table,
    room_id: u64,
    client_id: u64,
    peer_id: u64,
    message: Text,
)
    requires
        t.rooms.contains_key(room_id),
        t.rooms[room_id].mode == RoomMode::P2p,
        t.rooms[room_id].members.dom() == set![client_id, peer_id],
        client_id != peer_id,
        t.rooms[room_id].members[peer_id].registered,
    ensures
        t.send(room_id, client_id, t.rooms[room_id].signal_epoch, message) == (
            t,
            Ok::<SendResultView, Text>(
                SendResultView::P2p(Some(DeliveryView { room_id, client_id: peer_id, message })),
            ),
        ),
{
    lemma_single_other(t.rooms[room_id], client_id, peer_id);
}

// Departures

/// A direct member whose browser is gone stays, with the reconnect grace from now on,
/// and no worker hears of it.
pub proof fn law_direct_member_gets_grace(t: Table, now: Instant, room_id: u64, client_id: u64)
    requires
        t.is_member(room_id, client_id),
        t.rooms[room_id].mode == RoomMode::P2p,
        t.rooms[room_id].members[client_id].registered,
    ensures
        ({
            let u = t.deregister(now, room_id, client_id);
            &&& u.actions == t.actions
            &&& u.rooms[room_id].members.dom() == t.rooms[room_id].members.dom()
            &&& u.rooms[room_id].members[client_id] == (Member {
                registered: false,
                reconnect_deadline: Some(now.later(t.reconnect_grace)),
                ..t.rooms[room_id].members[client_id]
            })
        }),
{
    let u = t.deregister(now, room_id, client_id);
    assert(u.rooms[room_id].members.dom() =~= t.rooms[room_id].members.dom());
}

/// An SFU member whose browser is gone leaves its worker at once, if the worker is
/// connected and no other leave is under way.
pub proof fn law_sfu_member_leaves_at_once(t: Table, now: Instant, room_id: u64, client_id: u64)
    requires
        t.is_member(room_id, client_id),
        t.rooms[room_id].mode == RoomMode::Sfu,
        t.rooms[room_id].members[client_id].registered,
        t.rooms[room_id].pending_leave is None,
        t.serving(t.rooms[room_id]) is Some,
    ensures
        ({
            let room = t.rooms[room_id];
            let (_, connection_id) = t.serving(room)->0;
            let u = t.deregister(now, room_id, client_id);
            &&& u.actions == t.actions.push(
                ActionView::Sfu(
                    OutputView::Command {
                        connection_id,
                        command: CommandView {
                            request_id: t.next_sfu_request_id,
                            command: CommandKindView::Leave(
                                sfu::LeaveMember {
                                    room_id,
                                    client_id,
                                    lifecycle_id: room.members[client_id].lifecycle_id,
                                    assignment_epoch: room.assignment_epoch,
                                    reason: LeaveReason::Disconnected,
                                },
                            ),
                        },
                    },
                ),
            )
            &&& u.rooms[room_id].members[client_id].reconnect_deadline
                == room.members[client_id].reconnect_deadline
        }),
{
}

/// A removal from a direct room promotes the one that is left, and tells it if its
/// browser is connected.
pub proof fn law_removal_promotes_survivor(
    t: Table,
    authority_request_id: u64,
    room_id: u64,
    client_id: u64,
    survivor_id: u64,
)
    requires
        t.inv(),
        t.rooms.contains_key(room_id),
        t.rooms[room_id].mode == RoomMode::P2p,
        t.rooms[room_id].members.dom() == set![client_id, survivor_id],
        client_id != survivor_id,
    ensures
        ({
            let room = t.rooms[room_id];
            let survivor = room.members[survivor_id];
            let (u, result) = t.remove(
                authority_request_id,
                room_id,
                client_id,
                room.members[client_id].token,
            );
            &&& u.rooms[room_id].members.dom() == set![survivor_id]
            &&& u.rooms[room_id].members[survivor_id] == survivor.reset(true)
            &&& result == Ok::<RemovalResult, Text>(
                RemovalResult::Complete(
                    if survivor.registered {
                        Some(
                            Promotion {
                                room_id,
                                client_id: survivor_id,
                                signal_epoch: room.signal_epoch,
                            },
                        )
                    } else {
                        None
                    },
                ),
            )
        }),
{
    let room = t.rooms[room_id];
    let left = room.without_member(client_id);
    assert(left.members.dom() =~= set![survivor_id]);
    ord_map::lemma_in_order::<u64>(left.members.dom());
    let c = left.clients()[0];
    assert(left.clients().contains(c));
    assert(left.members.dom().contains(c));
    assert(left.promoted().members.dom() =~= set![survivor_id]);
}

/// A member that has left its worker promotes the one that is left of the SFU room, which
/// is told once, after the answer to whoever asked for the leave, if its browser is
/// connected.
pub proof fn law_leave_promotes_survivor(
    t: Table,
    now: Instant,
    connection_id: u64,
    instance_id: Text,
    request_id: u64,
    left: sfu::LeaveMember,
    survivor_id: u64,
)
    requires
        t.inv(),
        dwell::is_asked_to_leave(t, connection_id, instance_id, request_id, left),
        t.rooms[left.room_id].members.dom() == set![left.client_id, survivor_id],
        left.client_id != survivor_id,
    ensures
        ({
            let room_id = left.room_id;
            let room = t.rooms[room_id];
            let survivor = room.members[survivor_id];
            let (u, answer) = t.handle_sfu_input(
                upgrades::result_input(
                    connection_id,
                    instance_id,
                    request_id,
                    Ok(CommandOk::MemberLeft(left)),
                    now,
                ),
            );
            &&& answer is Ok
            &&& u.rooms[room_id].members.dom() == set![survivor_id]
            &&& u.rooms[room_id].members[survivor_id] == survivor.reset(true)
            &&& u.actions == t.actions + ActionView::removal(
                room.pending_leave->0,
                room_id,
                left.client_id,
                Ok(()),
            ) + ActionView::promoted(
                if survivor.registered {
                    Some(
                        Promotion {
                            room_id,
                            client_id: survivor_id,
                            signal_epoch: room.signal_epoch,
                        },
                    )
                } else {
                    None
                },
            )
        }),
{
    let room = Room { pending_leave: None, ..t.rooms[left.room_id] };
    let stays = room.without_member(left.client_id);
    assert(stays.members.dom() =~= set![survivor_id]);
    ord_map::lemma_in_order::<u64>(stays.members.dom());
    let c = stays.clients()[0];
    assert(stays.clients().contains(c));
    assert(stays.members.dom().contains(c));
    assert(stays.promoted().members.dom() =~= set![survivor_id]);
}

} // verus!
