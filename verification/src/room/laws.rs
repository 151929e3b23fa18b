//! What a V1 room promises.

use super::{is_expired, RoomView, MAX_ROOM_CAPACITY};
use crate::client::{ClientView, MAX_QUEUED_MSG_COUNT};
use crate::messages::MessageView;
use crate::ord_map;
use crate::seqs;
use crate::seqs::Text;
use crate::time::{Duration, Instant};
use vstd::prelude::*;

pub mod clients;

verus! {

impl ClientView {
    /// No queue is too long, and a connected client is not waited for.
    pub open spec fn inv(self) -> bool {
        &&& self.msgs.len() <= MAX_QUEUED_MSG_COUNT
        &&& self.events.len() == 0
        &&& self.registered ==> self.timeout is None
    }
}

impl RoomView {
    /// At most two clients, each under its own name and with the name of the room.
    pub open spec fn inv(self) -> bool {
        &&& self.clients.dom().finite()
        &&& self.clients.dom().len() <= MAX_ROOM_CAPACITY
        &&& forall|c: Text| #[trigger]
            self.clients.contains_key(c) ==> {
                &&& self.clients[c].inv()
                &&& self.clients[c].id == c
                &&& self.clients[c].room_id == self.id
            }
    }
}

/// A new room is in order.
pub proof fn law_new_room_has_inv(id: Text, register_timeout: Duration)
    ensures
        RoomView::initial(id, register_timeout).inv(),
{
}

/// A change of clients that are there.
proof fn lemma_same_clients(room: RoomView, after: RoomView)
    requires
        room.inv(),
        after.id == room.id,
        after.clients.dom() == room.clients.dom(),
        forall|c: Text| #[trigger]
            after.clients.contains_key(c) ==> after.clients[c].inv() && after.clients[c].id == room.clients[c].id
                && after.clients[c].room_id == room.clients[c].room_id,
    ensures
        after.inv(),
{
}

/// A room with a place for a client is in order with the client in it.
pub proof fn lemma_joined(room: RoomView, now: Instant, client_id: Text)
    requires
        room.inv(),
        room.can_hold(client_id),
    ensures
        room.joined(now, client_id).inv(),
        room.joined(now, client_id).has(client_id),
{
}

/// The first of the others is one of them.
pub proof fn lemma_first_other(room: RoomView, client_id: Text)
    requires
        room.clients.dom().finite(),
        room.others(client_id).len() > 0,
    ensures
        room.has(room.others(client_id)[0]),
        room.others(client_id)[0] != client_id,
{
    let others = room.others(client_id);
    ord_map::lemma_in_order::<String>(room.clients.dom());
    seqs::lemma_filter_contains(room.client_ids(), super::other_than(client_id));
    assert(others.contains(others[0]));
    assert(room.clients.dom().contains(others[0]));
}

/// In a room of two, the other one is the only other.
pub proof fn lemma_single_other(room: RoomView, client_id: Text, other_id: Text)
    requires
        room.clients.dom() == set![client_id, other_id],
        client_id != other_id,
    ensures
        room.others(client_id) == seq![other_id],
        room.others(other_id) == seq![client_id],
{
    lemma_only_other(room, client_id, other_id);
    assert(room.clients.dom() =~= set![other_id, client_id]);
    lemma_only_other(room, other_id, client_id);
}

proof fn lemma_only_other(room: RoomView, client_id: Text, other_id: Text)
    requires
        room.clients.dom() == set![client_id, other_id],
        client_id != other_id,
    ensures
        room.others(client_id) == seq![other_id],
{
    let dom = room.clients.dom();
    let q = room.client_ids();
    let p = super::other_than(client_id);
    ord_map::lemma_in_order::<String>(dom);
    ord_map::lemma_ascending_no_duplicates::<String>(q);
    seqs::lemma_filter_contains(q, p);
    seqs::lemma_filter_no_duplicates(q, p);
    let others = room.others(client_id);
    assert(dom.contains(other_id));
    assert(q.contains(other_id));
    assert(others.contains(other_id));
    assert forall|j: int| 0 <= j < others.len() implies others[j] == other_id by {
        assert(others.contains(others[j]));
        assert(dom.contains(others[j]));
    }
    if others.len() > 1 {
        assert(others[0] == others[1]);
    }
    assert(others =~= seq![other_id]);
}

/// A registration keeps the room in order.
pub proof fn law_register_keeps_inv(room: RoomView, now: Instant, client_id: Text)
    requires
        room.inv(),
    ensures
        room.register(now, client_id).0.inv(),
{
    let (after, result) = room.register(now, client_id);
    if result is Ok {
        lemma_joined(room, now, client_id);
        let there = room.joined(now, client_id);
        let here = there.with_client(client_id, there.clients[client_id].connected());
        assert(here.clients.dom() =~= there.clients.dom());
        lemma_same_clients(there, here);
        if here.others(client_id).len() > 0 {
            lemma_first_other(here, client_id);
        }
        assert(after.clients.dom() =~= here.clients.dom());
        lemma_same_clients(here, after);
    }
}

/// A message keeps the room in order.
pub proof fn law_send_keeps_inv(room: RoomView, now: Instant, source_id: Text, msg: Text)
    requires
        room.inv(),
    ensures
        room.send(now, source_id, msg).0.inv(),
{
    if room.can_hold(source_id) {
        let after = room.send(now, source_id, msg).0;
        lemma_joined(room, now, source_id);
        let here = room.joined(now, source_id);
        if here.others(source_id).len() > 0 {
            lemma_first_other(here, source_id);
        }
        assert(after.clients.dom() =~= here.clients.dom());
        lemma_same_clients(here, after);
    }
}

/// A departure keeps the room in order.
pub proof fn law_removal_keeps_inv(room: RoomView, client_id: Text)
    requires
        room.inv(),
    ensures
        room.without(client_id).inv(),
{
    if room.has(client_id) {
        let after = room.without(client_id);
        assert(after.clients.dom() =~= room.clients.dom().remove(client_id));
        assert forall|c: Text| #[trigger] after.has(c) implies after.clients[c]
            == room.clients[c].with_initiator(true) && room.has(c) by {
            assert(after.clients.dom().contains(c));
        }
    }
}

/// A lost connection keeps the room in order.
pub proof fn law_deregistration_keeps_inv(room: RoomView, now: Instant, client_id: Text)
    requires
        room.inv(),
    ensures
        room.deregistered(now, client_id).inv(),
{
    let after = room.deregistered(now, client_id);
    if room.is_connected(client_id) {
        assert(after.clients.dom() =~= room.clients.dom());
        lemma_same_clients(room, after);
    }
}

/// A join keeps the room in order.
pub proof fn law_join_keeps_inv(room: RoomView, now: Instant, client_id: Text, is_loopback: bool)
    requires
        room.inv(),
    ensures
        room.add_client(now, client_id, is_loopback).0.inv(),
{
    if !room.has(client_id) && !room.is_full() {
        let drained = room.with_queues_drained();
        assert(drained.clients.dom() =~= room.clients.dom());
        lemma_same_clients(room, drained);
        lemma_joined(drained, now, client_id);
        let there = drained.joined(now, client_id);
        let elected = there.with_client(
            client_id,
            there.clients[client_id].with_initiator(room.is_empty()),
        );
        assert(elected.clients.dom() =~= there.clients.dom());
        lemma_same_clients(there, elected);
        let peer = "LOOPBACK_CLIENT_ID"@;
        if elected.can_hold(peer) {
            lemma_joined(elected, now, peer);
            let both = elected.joined(now, peer);
            let after = elected.with_loopback(now);
            assert(after.clients.dom() =~= both.clients.dom());
            lemma_same_clients(both, after);
        }
    }
}

/// What comes from and goes to sockets keeps the room in order.
pub proof fn law_sockets_keep_inv(room: RoomView, msg: MessageView)
    requires
        room.inv(),
    ensures
        room.after_read(msg).inv(),
        room.after_write(msg).inv(),
        room.poll_read().0.inv(),
        room.poll_write().0.inv(),
{
    assert(room.after_read(msg).clients.dom() =~= room.clients.dom());
    lemma_same_clients(room, room.after_read(msg));
    assert(room.after_write(msg).clients.dom() =~= room.clients.dom());
    lemma_same_clients(room, room.after_write(msg));
    let q = room.client_ids();
    ord_map::lemma_in_order::<String>(room.clients.dom());
    let reading = q.filter(super::has_reads(room.clients));
    seqs::lemma_filter_contains(q, super::has_reads(room.clients));
    if reading.len() > 0 {
        assert(reading.contains(reading[0]));
        assert(room.clients.dom().contains(reading[0]));
        assert(room.has(reading[0]));
        assert(room.poll_read().0.clients.dom() =~= room.clients.dom());
        lemma_same_clients(room, room.poll_read().0);
    }
    let writing = q.filter(super::has_writes(room.clients));
    seqs::lemma_filter_contains(q, super::has_writes(room.clients));
    if writing.len() > 0 {
        assert(writing.contains(writing[0]));
        assert(room.clients.dom().contains(writing[0]));
        assert(room.has(writing[0]));
        assert(room.poll_write().0.clients.dom() =~= room.clients.dom());
        lemma_same_clients(room, room.poll_write().0);
    }
}

/// Time keeps the room in order.
pub proof fn law_timeout_keeps_inv(room: RoomView, now: Instant)
    requires
        room.inv(),
    ensures
        room.handle_timeout(now).inv(),
{
    let after = room.handle_timeout(now);
    assert(after.clients.dom().subset_of(room.clients.dom()));
    vstd::set_lib::lemma_len_subset(after.clients.dom(), room.clients.dom());
    assert forall|c: Text| #[trigger] after.has(c) implies room.has(c) && (after.clients[c]
        == room.clients[c] || after.clients[c] == room.clients[c].with_initiator(true)) by {
        assert(after.clients.dom().contains(c));
    }
}

/// A third client gets nowhere: it can neither join nor register nor send, and nothing
/// changes.
pub proof fn law_third_client_is_refused(
    room: RoomView,
    now: Instant,
    client_id: Text,
    is_loopback: bool,
    msg: Text,
)
    requires
        room.is_full(),
        !room.has(client_id),
    ensures
        room.add_client(now, client_id, is_loopback) == (
            room,
            Err::<(bool, Seq<Text>), Text>("FULL"@),
        ),
        room.register(now, client_id) == (room, Err::<(), Text>("Max room capacity reached"@)),
        room.send(now, client_id, msg) == (room, Err::<(), Text>("Max room capacity reached"@)),
{
}

/// A client that is in the room cannot join it again.
pub proof fn law_duplicate_join_is_refused(
    room: RoomView,
    now: Instant,
    client_id: Text,
    is_loopback: bool,
)
    requires
        room.has(client_id),
    ensures
        room.add_client(now, client_id, is_loopback) == (
            room,
            Err::<(bool, Seq<Text>), Text>("DUPLICATE_CLIENT"@),
        ),
{
}

/// The first client of a room offers, and the second does not.
pub proof fn law_first_client_offers(
    room: RoomView,
    now: Instant,
    first_id: Text,
    second_id: Text,
)
    requires
        room.inv(),
        room.is_empty(),
        first_id != second_id,
    ensures
        ({
            let (one, first) = room.add_client(now, first_id, false);
            let (two, second) = one.add_client(now, second_id, false);
            &&& first matches Ok((is_initiator, messages)) && is_initiator && messages.len() == 0
            &&& second matches Ok((is_initiator, messages)) && !is_initiator && messages.len() == 0
            &&& two.clients.dom() == set![first_id, second_id]
            &&& two.clients[first_id].is_initiator
            &&& !two.clients[second_id].is_initiator
        }),
{
    let dom = room.clients.dom();
    assert(dom =~= Set::empty());
    let one = room.add_client(now, first_id, false).0;
    lemma_nothing_queued(room);
    assert(one.clients.dom() =~= set![first_id]);
    lemma_nothing_queued(one);
    let two = one.add_client(now, second_id, false).0;
    assert(two.clients.dom() =~= set![first_id, second_id]);
}

proof fn lemma_nothing_queued(room: RoomView)
    requires
        room.clients.dom().finite(),
        forall|c: Text| #[trigger] room.has(c) ==> room.clients[c].msgs.len() == 0,
    ensures
        room.queued().len() == 0,
{
    let ids = room.client_ids();
    ord_map::lemma_in_order::<String>(room.clients.dom());
    let queues = ids.map_values(super::queue_of(room.clients));
    assert forall|i: int| 0 <= i < queues.len() implies #[trigger] queues[i] == Seq::<
        Text,
    >::empty() by {
        assert(ids.contains(ids[i]));
        assert(room.clients.dom().contains(ids[i]));
        assert(room.has(ids[i]));
        assert(queues[i] =~= Seq::<Text>::empty());
    }
    lemma_flatten_empty(queues);
}

proof fn lemma_flatten_empty(queues: Seq<Seq<Text>>)
    requires
        forall|i: int| 0 <= i < queues.len() ==> #[trigger] queues[i] == Seq::<Text>::empty(),
    ensures
        queues.flatten() == Seq::<Text>::empty(),
    decreases queues.len(),
{
    if queues.len() > 0 {
        let rest = queues.drop_first();
        assert forall|i: int| 0 <= i < rest.len() implies #[trigger] rest[i] == Seq::<
            Text,
        >::empty() by {
            assert(rest[i] == queues[i + 1]);
        }
        lemma_flatten_empty(rest);
        assert(queues.first() == queues[0]);
    }
}

/// Whoever is left in a room offers.
pub proof fn law_survivor_is_promoted(room: RoomView, client_id: Text, survivor_id: Text)
    requires
        room.has(client_id),
        room.has(survivor_id),
        client_id != survivor_id,
    ensures
        room.without(client_id).has(survivor_id),
        room.without(client_id).clients[survivor_id] == room.clients[survivor_id].with_initiator(
            true,
        ),
        !room.without(client_id).has(client_id),
{
}

/// The room after a client has sent some messages in turn.
pub open spec fn send_all(
    room: RoomView,
    now: Instant,
    source_id: Text,
    messages: Seq<Text>,
) -> RoomView
    decreases messages.len(),
{
    if messages.len() == 0 {
        room
    } else {
        send_all(room, now, source_id, messages.drop_last()).send(
            now,
            source_id,
            messages.last(),
        ).0
    }
}

/// Messages wait with their sender as long as nobody is connected to take them.
proof fn lemma_send_all_queues(
    room: RoomView,
    now: Instant,
    source_id: Text,
    messages: Seq<Text>,
)
    requires
        room.inv(),
        room.has(source_id),
        forall|c: Text| #[trigger] room.has(c) && c != source_id ==> !room.clients[c].registered,
        room.clients[source_id].msgs.len() + messages.len() <= MAX_QUEUED_MSG_COUNT,
    ensures
        ({
            let source = room.clients[source_id];
            send_all(room, now, source_id, messages) == room.with_client(
                source_id,
                ClientView { msgs: source.msgs + messages, ..source },
            )
        }),
    decreases messages.len(),
{
    let source = room.clients[source_id];
    if messages.len() == 0 {
        assert(source.msgs + messages =~= source.msgs);
        assert(room.clients.insert(source_id, source) =~= room.clients);
    } else {
        let front = messages.drop_last();
        lemma_send_all_queues(room, now, source_id, front);
        let here = send_all(room, now, source_id, front);
        assert(here.clients.dom() =~= room.clients.dom());
        if here.others(source_id).len() > 0 {
            lemma_first_other(here, source_id);
            let other = here.others(source_id)[0];
            assert(room.has(other));
            let sender = here.clients[source_id].with_queued(messages.last());
            assert(here.with_client(source_id, sender).with_client(other, room.clients[other])
                =~= here.with_client(source_id, sender));
        }
        assert((source.msgs + front).push(messages.last()) =~= source.msgs + messages);
        let after = send_all(room, now, source_id, messages);
        assert(after.clients =~= room.clients.insert(
            source_id,
            ClientView { msgs: source.msgs + messages, ..source },
        ));
    }
}

/// What a client sends while it is alone is handed to the next one that joins, in the
/// order in which it was sent and exactly once.
pub proof fn law_join_replays_the_queue(
    room: RoomView,
    now: Instant,
    source_id: Text,
    client_id: Text,
    messages: Seq<Text>,
)
    requires
        room.inv(),
        room.clients.dom() == set![source_id],
        client_id != source_id,
        room.clients[source_id].msgs.len() + messages.len() <= MAX_QUEUED_MSG_COUNT,
    ensures
        ({
            let sent = send_all(room, now, source_id, messages);
            let (after, result) = sent.add_client(now, client_id, false);
            &&& result == Ok::<(bool, Seq<Text>), Text>(
                (false, room.clients[source_id].msgs + messages),
            )
            &&& after.clients[source_id].msgs.len() == 0
        }),
{
    assert(room.clients.dom().contains(source_id));
    assert(room.has(source_id));
    lemma_send_all_queues(room, now, source_id, messages);
    let sent = send_all(room, now, source_id, messages);
    assert(sent.clients.dom() =~= set![source_id]);
    ord_map::lemma_in_order::<String>(sent.clients.dom());
    let ids = sent.client_ids();
    assert(ids.contains(ids[0]));
    assert(sent.clients.dom().contains(ids[0]));
    assert(ids =~= seq![source_id]);
    let queues = ids.map_values(super::queue_of(sent.clients));
    assert(queues =~= seq![sent.clients[source_id].msgs]);
    queues.lemma_flatten_one_element();
}

/// What a client sends while the other one is not connected reaches the other one when
/// it registers, in the order in which it was sent and exactly once.
pub proof fn law_registration_replays_the_queue(
    room: RoomView,
    now: Instant,
    source_id: Text,
    client_id: Text,
    messages: Seq<Text>,
)
    requires
        room.inv(),
        room.clients.dom() == set![source_id, client_id],
        client_id != source_id,
        !room.clients[client_id].registered,
        room.clients[source_id].msgs.len() + messages.len() <= MAX_QUEUED_MSG_COUNT,
    ensures
        ({
            let queued = room.clients[source_id].msgs + messages;
            let written = room.clients[client_id].writes;
            let sent = send_all(room, now, source_id, messages);
            let (after, result) = sent.register(now, client_id);
            let writes = after.clients[client_id].writes;
            &&& result is Ok
            &&& after.clients[source_id].msgs.len() == 0
            &&& writes.len() == written.len() + queued.len()
            &&& writes.take(written.len() as int) == written
            &&& forall|i: int|
                0 <= i < queued.len() ==> #[trigger] writes[written.len() + i] == (MessageView {
                    roomid: room.id,
                    clientid: client_id,
                    msg: queued[i],
                })
        }),
{
    assert(room.clients.dom().contains(source_id));
    assert(room.clients.dom().contains(client_id));
    assert(room.has(source_id));
    assert(room.has(client_id));
    assert forall|c: Text| #[trigger]
        room.has(c) && c != source_id implies !room.clients[c].registered by {
        assert(room.clients.dom().contains(c));
    }
    lemma_send_all_queues(room, now, source_id, messages);
    let sent = send_all(room, now, source_id, messages);
    let here = sent.with_client(client_id, sent.clients[client_id].connected());
    assert(here.clients.dom() =~= set![source_id, client_id]);
    lemma_single_other(here, source_id, client_id);
    let after = sent.register(now, client_id).0;
    assert(after.clients[client_id].writes.take(room.clients[client_id].writes.len() as int)
        =~= room.clients[client_id].writes);
}

/// A message for a connected client goes to it at once, and to nobody else.
pub proof fn law_message_reaches_connected_peer(
    room: RoomView,
    now: Instant,
    source_id: Text,
    client_id: Text,
    msg: Text,
)
    requires
        room.inv(),
        room.clients.dom() == set![source_id, client_id],
        client_id != source_id,
        room.clients[client_id].registered,
    ensures
        ({
            let peer = room.clients[client_id];
            room.send(now, source_id, msg) == (
                room.with_client(
                    client_id,
                    peer.with_written(MessageView { roomid: room.id, clientid: client_id, msg }),
                ),
                Ok::<(), Text>(()),
            )
        }),
{
    assert(room.clients.dom().contains(source_id));
    assert(room.clients.dom().contains(client_id));
    assert(room.has(source_id));
    assert(room.has(client_id));
    lemma_single_other(room, source_id, client_id);
    let peer = room.clients[client_id].with_written(
        MessageView { roomid: room.id, clientid: client_id, msg },
    );
    assert(room.with_client(source_id, room.clients[source_id]).with_client(client_id, peer)
        =~= room.with_client(client_id, peer));
}

/// A connected client stays whatever time it is, and one that is not connected stays
/// exactly until its deadline.
pub proof fn law_only_late_clients_are_removed(room: RoomView, now: Instant, client_id: Text)
    requires
        room.inv(),
        room.has(client_id),
    ensures
        room.handle_timeout(now).has(client_id) <==> room.clients[client_id].registered || !(
        room.clients[client_id].timeout matches Some(deadline) && deadline.due(now)),
{
    assert(is_expired(room.clients, now)(client_id) == (room.clients[client_id].ticked(
        now,
    ).events.len() > 0));
}

/// A client that lost its connection has the register timeout to come back, and what
/// it had queued still waits.
pub proof fn law_lost_connection_has_grace(
    room: RoomView,
    now: Instant,
    later: Instant,
    client_id: Text,
)
    requires
        room.inv(),
        room.is_connected(client_id),
        !now.later(room.register_timeout).due(later),
    ensures
        ({
            let gone = room.deregistered(now, client_id);
            let waited = gone.handle_timeout(later);
            &&& waited.has(client_id)
            &&& waited.clients[client_id].msgs == room.clients[client_id].msgs
            &&& waited.register(later, client_id).1 is Ok
            &&& waited.register(later, client_id).0.is_connected(client_id)
        }),
{
    let gone = room.deregistered(now, client_id);
    law_deregistration_keeps_inv(room, now, client_id);
    law_only_late_clients_are_removed(gone, later, client_id);
    let waited = gone.handle_timeout(later);
    law_timeout_keeps_inv(gone, later);
    let here = waited.with_client(client_id, waited.clients[client_id].connected());
    assert(here.clients.dom() =~= waited.clients.dom());
    if here.others(client_id).len() > 0 {
        lemma_first_other(here, client_id);
    }
}

} // verus!
