//! What the V1 rooms promise together.

use super::TableView;
use crate::messages::MessageView;
use crate::ord_map;
use crate::room::laws as rooms;
use crate::room::RoomView;
use crate::seqs;
use crate::seqs::Text;
use crate::time::{Duration, Instant};
use vstd::prelude::*;

verus! {

impl TableView {
    /// Every room is in order and stands under its own name.
    pub open spec fn inv(self) -> bool {
        &&& self.rooms.dom().finite()
        &&& forall|r: Text| #[trigger]
            self.rooms.contains_key(r) ==> self.rooms[r].inv() && self.rooms[r].id == r
    }
}

/// A new table is in order.
pub proof fn law_new_table_has_inv(register_timeout: Duration)
    ensures
        TableView::initial(register_timeout).inv(),
{
}

/// A room, old or new, is in order.
pub proof fn lemma_room(t: TableView, room_id: Text)
    requires
        t.inv(),
    ensures
        t.room(room_id).inv(),
        t.room(room_id).id == room_id,
{
    rooms::law_new_room_has_inv(room_id, t.register_timeout);
}

/// What clients do keeps every room in order, within its capacity above all.
pub proof fn law_clients_keep_inv(
    t: TableView,
    now: Instant,
    room_id: Text,
    client_id: Text,
    is_loopback: bool,
    msg: Text,
)
    requires
        t.inv(),
    ensures
        t.join(now, room_id, client_id, is_loopback).0.inv(),
        t.register(now, room_id, client_id).0.inv(),
        t.send(now, room_id, client_id, msg).0.inv(),
        t.deregistered(now, room_id, client_id).inv(),
        t.without_client(room_id, client_id).inv(),
        t.without_unregistered(room_id, client_id).inv(),
{
    lemma_room(t, room_id);
    let room = t.room(room_id);
    rooms::law_join_keeps_inv(room, now, client_id, is_loopback);
    rooms::law_register_keeps_inv(room, now, client_id);
    rooms::law_send_keeps_inv(room, now, client_id, msg);
    rooms::law_deregistration_keeps_inv(room, now, client_id);
    rooms::law_removal_keeps_inv(room, client_id);
}

/// What comes from and goes to sockets keeps every room in order.
pub proof fn law_sockets_keep_inv(t: TableView, msg: MessageView)
    requires
        t.inv(),
    ensures
        t.after_read(msg).inv(),
        t.after_write(msg).inv(),
        t.poll_read().0.inv(),
        t.poll_write().0.inv(),
{
    if t.rooms.contains_key(msg.roomid) {
        rooms::law_sockets_keep_inv(t.rooms[msg.roomid], msg);
    }
    let ids = t.room_ids();
    ord_map::lemma_in_order::<String>(t.rooms.dom());
    let reading = ids.filter(super::has_reads(t.rooms));
    seqs::lemma_filter_contains(ids, super::has_reads(t.rooms));
    if reading.len() > 0 {
        assert(reading.contains(reading[0]));
        assert(t.rooms.dom().contains(reading[0]));
        rooms::law_sockets_keep_inv(t.rooms[reading[0]], msg);
    }
    let writing = ids.filter(super::has_writes(t.rooms));
    seqs::lemma_filter_contains(ids, super::has_writes(t.rooms));
    if writing.len() > 0 {
        assert(writing.contains(writing[0]));
        assert(t.rooms.dom().contains(writing[0]));
        rooms::law_sockets_keep_inv(t.rooms[writing[0]], msg);
    }
}

/// Time keeps every room in order, and leaves no room without clients.
pub proof fn law_timeout_keeps_inv(t: TableView, now: Instant)
    requires
        t.inv(),
    ensures
        t.handle_timeout(now).inv(),
        forall|r: Text| #[trigger]
            t.handle_timeout(now).rooms.contains_key(r) ==> !t.handle_timeout(
                now,
            ).rooms[r].is_empty(),
{
    let u = t.handle_timeout(now);
    assert(u.rooms.dom().subset_of(t.rooms.dom()));
    vstd::set_lib::lemma_len_subset(u.rooms.dom(), t.rooms.dom());
    assert forall|r: Text| #[trigger] u.rooms.contains_key(r) implies u.rooms[r].inv()
        && u.rooms[r].id == r by {
        assert(t.rooms.contains_key(r));
        rooms::law_timeout_keeps_inv(t.rooms[r], now);
    }
}

/// Both tables say the same of a room.
pub open spec fn agree_on(t: TableView, u: TableView, room_id: Text) -> bool {
    &&& t.rooms.contains_key(room_id) == u.rooms.contains_key(room_id)
    &&& t.rooms.contains_key(room_id) ==> t.rooms[room_id] == u.rooms[room_id]
}

/// What happens in one room does not concern another.
pub proof fn law_rooms_are_independent(
    t: TableView,
    now: Instant,
    room_id: Text,
    other_room: Text,
    client_id: Text,
    is_loopback: bool,
    msg: Text,
)
    requires
        other_room != room_id,
    ensures
        agree_on(t, t.join(now, room_id, client_id, is_loopback).0, other_room),
        agree_on(t, t.register(now, room_id, client_id).0, other_room),
        agree_on(t, t.send(now, room_id, client_id, msg).0, other_room),
        agree_on(t, t.deregistered(now, room_id, client_id), other_room),
        agree_on(t, t.without_client(room_id, client_id), other_room),
        agree_on(t, t.without_unregistered(room_id, client_id), other_room),
{
}

/// With its last client a room is gone, and the next client that joins is the first
/// of a new one.
pub proof fn law_last_departure_closes_the_room(
    t: TableView,
    now: Instant,
    room_id: Text,
    client_id: Text,
    next_id: Text,
)
    requires
        t.inv(),
        t.rooms.contains_key(room_id),
        t.rooms[room_id].clients.dom() == set![client_id],
    ensures
        ({
            let u = t.without_client(room_id, client_id);
            &&& !u.rooms.contains_key(room_id)
            &&& u.occupancy(room_id) == 0
            &&& u.join(now, room_id, next_id, false).1 matches Ok((is_initiator, messages))
                && is_initiator && messages.len() == 0
        }),
{
    let room = t.rooms[room_id];
    let left = room.without(client_id);
    assert(room.clients.dom().contains(client_id));
    assert(left.clients.dom() =~= Set::empty());
    let fresh = RoomView::initial(room_id, t.register_timeout);
    rooms::law_new_room_has_inv(room_id, t.register_timeout);
    let other = next_id.push('x');
    assert(other.len() != next_id.len());
    rooms::law_first_client_offers(fresh, now, next_id, other);
}

/// A leave that raced with a new registration does not remove the client.
pub proof fn law_connected_client_is_not_cleaned_up(t: TableView, room_id: Text, client_id: Text)
    requires
        t.rooms.contains_key(room_id),
        t.rooms[room_id].is_connected(client_id),
    ensures
        t.without_unregistered(room_id, client_id) == t,
{
}

// Messages under way

impl TableView {
    /// Nothing that a client has sent waits to be relayed.
    pub open spec fn is_relayed(self) -> bool {
        forall|r: Text, c: Text|
            self.rooms.contains_key(r) && #[trigger] self.rooms[r].clients.contains_key(c)
                ==> self.rooms[r].clients[c].reads.len() == 0
    }

    /// Nothing waits to be written to a client.
    pub open spec fn is_written(self) -> bool {
        forall|r: Text, c: Text|
            self.rooms.contains_key(r) && #[trigger] self.rooms[r].clients.contains_key(c)
                ==> self.rooms[r].clients[c].writes.len() == 0
    }
}

/// What clients do adds nothing that is to be relayed.
pub proof fn lemma_clients_keep_relayed(
    t: TableView,
    now: Instant,
    room_id: Text,
    client_id: Text,
    is_loopback: bool,
    msg: Text,
)
    requires
        t.inv(),
        t.is_relayed(),
    ensures
        t.join(now, room_id, client_id, is_loopback).0.is_relayed(),
        t.register(now, room_id, client_id).0.is_relayed(),
        t.send(now, room_id, client_id, msg).0.is_relayed(),
        t.deregistered(now, room_id, client_id).is_relayed(),
        t.without_client(room_id, client_id).is_relayed(),
        t.handle_timeout(now).is_relayed(),
        t.without_writes().is_relayed(),
{
    lemma_room(t, room_id);
    let room = t.room(room_id);
    assert(forall|c: Text| #[trigger]
        room.clients.contains_key(c) ==> room.clients[c].reads.len() == 0);
    let here = room.joined(now, client_id);
    if room.can_hold(client_id) {
        rooms::lemma_joined(room, now, client_id);
        if here.others(client_id).len() > 0 {
            rooms::lemma_first_other(here, client_id);
        }
        let connected = here.with_client(client_id, here.clients[client_id].connected());
        assert(connected.clients.dom() =~= here.clients.dom());
        if connected.others(client_id).len() > 0 {
            rooms::lemma_first_other(connected, client_id);
        }
    }
    assert forall|r: Text, c: Text|
        t.handle_timeout(now).rooms.contains_key(r) && #[trigger] t.handle_timeout(
            now,
        ).rooms[r].clients.contains_key(c) implies t.handle_timeout(
        now,
    ).rooms[r].clients[c].reads.len() == 0 by {
        assert(t.rooms.contains_key(r));
        assert(t.rooms[r].clients.contains_key(c));
    }
}

/// Joins, departures and time add nothing that is to be written, and neither does a
/// message or a registration that is refused.
pub proof fn lemma_clients_keep_written(
    t: TableView,
    now: Instant,
    room_id: Text,
    client_id: Text,
    is_loopback: bool,
    msg: Text,
)
    requires
        t.inv(),
        t.is_written(),
    ensures
        t.join(now, room_id, client_id, is_loopback).0.is_written(),
        t.register(now, room_id, client_id).1 is Err ==> t.register(
            now,
            room_id,
            client_id,
        ).0.is_written(),
        t.send(now, room_id, client_id, msg).1 is Err ==> t.send(
            now,
            room_id,
            client_id,
            msg,
        ).0.is_written(),
        t.deregistered(now, room_id, client_id).is_written(),
        t.without_client(room_id, client_id).is_written(),
        t.handle_timeout(now).is_written(),
{
    lemma_room(t, room_id);
    let room = t.room(room_id);
    assert(forall|c: Text| #[trigger]
        room.clients.contains_key(c) ==> room.clients[c].writes.len() == 0);
    let here = room.joined(now, client_id);
    if room.can_hold(client_id) {
        rooms::lemma_joined(room, now, client_id);
        if here.others(client_id).len() > 0 {
            rooms::lemma_first_other(here, client_id);
        }
    }
    assert forall|r: Text, c: Text|
        t.handle_timeout(now).rooms.contains_key(r) && #[trigger] t.handle_timeout(
            now,
        ).rooms[r].clients.contains_key(c) implies t.handle_timeout(
        now,
    ).rooms[r].clients[c].writes.len() == 0 by {
        assert(t.rooms.contains_key(r));
        assert(t.rooms[r].clients.contains_key(c));
    }
}

/// Once everything has been written, nothing waits to be.
pub proof fn lemma_without_writes(t: TableView)
    requires
        t.inv(),
    ensures
        t.without_writes().inv(),
        t.without_writes().is_written(),
{
    let u = t.without_writes();
    assert(u.rooms.dom() =~= t.rooms.dom());
    assert forall|r: Text| #[trigger] u.rooms.contains_key(r) implies u.rooms[r].inv()
        && u.rooms[r].id == r by {
        assert(t.rooms.contains_key(r));
        assert(u.rooms[r] == t.rooms[r].without_writes());
        assert(u.rooms[r].clients.dom() =~= t.rooms[r].clients.dom());
    }
}

/// The only message that a client has sent is the next to be relayed.
proof fn lemma_only_read(t: TableView, message: MessageView)
    requires
        t.inv(),
        t.is_relayed(),
        t.rooms.contains_key(message.roomid),
        t.rooms[message.roomid].has(message.clientid),
    ensures
        t.after_read(message).reads() == seq![message],
        t.after_read(message).poll_read() == (t, Some(message)),
{
    let r = message.roomid;
    let c = message.clientid;
    let u = t.after_read(message);
    let room = u.rooms[r];
    assert(t.rooms[r].clients.contains_key(c));
    law_sockets_keep_inv(t, message);
    let mine = crate::room::reads_of(room.clients);
    assert(mine.dom() =~= room.clients.dom());
    assert(room.clients[c].reads =~= seq![message]);
    assert forall|x: Text| #[trigger] mine.contains_key(x) && x != c implies mine[x].len() == 0 by {
        assert(t.rooms[r].clients.contains_key(x));
    }
    ord_map::lemma_concat_only::<String, MessageView>(mine, c);
    let all = super::reads_of(u.rooms);
    assert(all.dom() =~= u.rooms.dom());
    assert forall|x: Text| #[trigger] all.contains_key(x) && x != r implies all[x].len() == 0 by {
        lemma_no_reads(t.rooms[x]);
    }
    ord_map::lemma_concat_only::<String, MessageView>(all, r);
    // The room and the client that are polled can only be those of the message.
    let ids = u.room_ids();
    let p = super::has_reads(u.rooms);
    ord_map::lemma_in_order::<String>(u.rooms.dom());
    seqs::lemma_filter_contains(ids, p);
    crate::room::lemma_poll_read(room);
    assert(u.rooms.dom().contains(r));
    assert(ids.contains(r));
    assert(p(r));
    assert(ids.filter(p).contains(r));
    let first = ids.filter(p)[0];
    assert(ids.filter(p).contains(first));
    assert(u.rooms.dom().contains(first));
    if first != r {
        lemma_no_reads(t.rooms[first]);
        crate::room::lemma_poll_read(t.rooms[first]);
    }
    let names = room.client_ids();
    let q = crate::room::has_reads(room.clients);
    ord_map::lemma_in_order::<String>(room.clients.dom());
    seqs::lemma_filter_contains(names, q);
    assert(room.clients.dom().contains(c));
    assert(names.contains(c));
    assert(q(c));
    assert(names.filter(q).contains(c));
    let one = names.filter(q)[0];
    assert(names.filter(q).contains(one));
    assert(room.clients.dom().contains(one));
    if one != c {
        assert(t.rooms[r].clients.contains_key(one));
    }
    let back = room.poll_read().0;
    assert(room.clients[c].reads.skip(1) =~= t.rooms[r].clients[c].reads);
    assert(back.clients =~= t.rooms[r].clients);
    assert(u.rooms.insert(r, back) =~= t.rooms);
}

/// Where no client has sent anything, there is nothing to relay.
proof fn lemma_no_reads(room: RoomView)
    requires
        room.clients.dom().finite(),
        forall|c: Text| #[trigger] room.clients.contains_key(c) ==> room.clients[c].reads.len()
            == 0,
    ensures
        room.reads() == Seq::<MessageView>::empty(),
{
    let ids = room.client_ids();
    let p = crate::room::has_reads(room.clients);
    ord_map::lemma_in_order::<String>(room.clients.dom());
    seqs::lemma_filter_contains(ids, p);
    if ids.filter(p).len() > 0 {
        let c = ids.filter(p)[0];
        assert(ids.filter(p).contains(c));
        assert(room.clients.dom().contains(c));
    }
    crate::room::lemma_poll_read(room);
}

/// Where nothing is to be written to the clients of a room, nothing comes of it.
proof fn lemma_no_writes(room: RoomView)
    requires
        room.clients.dom().finite(),
        forall|c: Text| #[trigger] room.clients.contains_key(c) ==> room.clients[c].writes.len()
            == 0,
    ensures
        room.writes() == Seq::<MessageView>::empty(),
        room.without_writes() == room,
{
    let ids = room.client_ids();
    let p = crate::room::has_writes(room.clients);
    ord_map::lemma_in_order::<String>(room.clients.dom());
    seqs::lemma_filter_contains(ids, p);
    if ids.filter(p).len() > 0 {
        let c = ids.filter(p)[0];
        assert(ids.filter(p).contains(c));
        assert(room.clients.dom().contains(c));
    }
    crate::room::lemma_poll_write(room);
}

/// A message that a client has sent is relayed like any other that it sends.
pub proof fn law_read_is_sent(t: TableView, now: Instant, message: MessageView)
    requires
        t.inv(),
        t.is_relayed(),
        t.rooms.contains_key(message.roomid),
        t.rooms[message.roomid].has(message.clientid),
    ensures
        ({
            let read = t.after_read(message);
            read.relay_reads(now, read.reads().len()) == t.send(
                now,
                message.roomid,
                message.clientid,
                message.msg,
            )
        }),
{
    lemma_only_read(t, message);
    reveal_with_fuel(TableView::relay_reads, 2);
}

/// What is written to the clients of one room, where nothing else waits.
proof fn lemma_room_writes(t: TableView, room_id: Text)
    requires
        t.inv(),
        t.rooms.contains_key(room_id),
        forall|r: Text, c: Text|
            t.rooms.contains_key(r) && r != room_id && #[trigger] t.rooms[r].clients.contains_key(c)
                ==> t.rooms[r].clients[c].writes.len() == 0,
    ensures
        t.writes() == t.rooms[room_id].writes(),
{
    let all = super::writes_of(t.rooms);
    assert(all.dom() =~= t.rooms.dom());
    assert forall|x: Text| #[trigger]
        all.contains_key(x) && x != room_id implies all[x].len() == 0 by {
        lemma_no_writes(t.rooms[x]);
    }
    ord_map::lemma_concat_only::<String, MessageView>(all, room_id);
}

/// What is written to one client, where nothing else waits.
pub proof fn lemma_client_writes(t: TableView, room_id: Text, client_id: Text)
    requires
        t.inv(),
        t.rooms.contains_key(room_id),
        t.rooms[room_id].has(client_id),
        forall|r: Text, c: Text|
            t.rooms.contains_key(r) && !(r == room_id && c == client_id)
                && #[trigger] t.rooms[r].clients.contains_key(c)
                ==> t.rooms[r].clients[c].writes.len() == 0,
    ensures
        t.writes() == t.rooms[room_id].clients[client_id].writes,
{
    lemma_room_writes(t, room_id);
    let room = t.rooms[room_id];
    let mine = crate::room::writes_of(room.clients);
    assert(mine.dom() =~= room.clients.dom());
    assert forall|x: Text| #[trigger]
        mine.contains_key(x) && x != client_id implies mine[x].len() == 0 by {
        assert(room.clients.contains_key(x));
    }
    ord_map::lemma_concat_only::<String, MessageView>(mine, client_id);
}

/// Where nothing is to be written, nothing is written and nothing changes.
pub proof fn lemma_nothing_written(t: TableView)
    requires
        t.inv(),
        t.is_written(),
    ensures
        t.writes() == Seq::<MessageView>::empty(),
        t.without_writes() == t,
{
    let ids = t.room_ids();
    let p = super::has_writes(t.rooms);
    ord_map::lemma_in_order::<String>(t.rooms.dom());
    seqs::lemma_filter_contains(ids, p);
    assert forall|r: Text| #[trigger] t.rooms.contains_key(r) implies t.rooms[r].poll_write().1
        is None && t.rooms[r].without_writes() == t.rooms[r] by {
        lemma_no_writes(t.rooms[r]);
        crate::room::lemma_poll_write(t.rooms[r]);
    }
    if ids.filter(p).len() > 0 {
        let r = ids.filter(p)[0];
        assert(ids.filter(p).contains(r));
        assert(t.rooms.dom().contains(r));
        assert(t.rooms.contains_key(r));
    }
    assert(t.finite());
    super::lemma_poll_write(t);
}

/// What a client does in a room is what that room makes of it; a room that does not exist
/// is new and empty. A client that leaves is gone from its room, and the room with its last
/// one; one that is connected is not cleaned up.
pub proof fn law_rooms_decide(
    t: TableView,
    now: Instant,
    room_id: Text,
    client_id: Text,
    is_loopback: bool,
    msg: Text,
    message: MessageView,
)
    ensures
        ({
            let room = if t.rooms.contains_key(room_id) {
                t.rooms[room_id]
            } else {
                RoomView {
                    id: room_id,
                    clients: Map::empty(),
                    register_timeout: t.register_timeout,
                }
            };
            let (joined, join) = t.join(now, room_id, client_id, is_loopback);
            let (registered, registration) = t.register(now, room_id, client_id);
            let (sent, sending) = t.send(now, room_id, client_id, msg);
            let left = room.without(client_id);
            let connected = room.clients.contains_key(client_id)
                && room.clients[client_id].registered;
            let without = if left.clients.dom().len() == 0 {
                TableView { rooms: t.rooms.remove(room_id), ..t }
            } else {
                TableView { rooms: t.rooms.insert(room_id, left), ..t }
            };
            &&& (TableView {
                rooms: t.rooms.insert(room_id, room.add_client(now, client_id, is_loopback).0),
                ..t
            }) == joined
            &&& join == room.add_client(now, client_id, is_loopback).1
            &&& (TableView {
                rooms: t.rooms.insert(room_id, room.register(now, client_id).0),
                ..t
            }) == registered
            &&& registration == room.register(now, client_id).1
            &&& (TableView {
                rooms: t.rooms.insert(room_id, room.send(now, client_id, msg).0),
                ..t
            }) == sent
            &&& sending == room.send(now, client_id, msg).1
            &&& t.rooms.contains_key(room_id) ==> t.without_client(room_id, client_id) == without
            &&& t.rooms.contains_key(room_id) ==> t.deregistered(now, room_id, client_id) == (
            TableView {
                rooms: t.rooms.insert(room_id, room.deregistered(now, client_id)),
                ..t
            })
            &&& !t.rooms.contains_key(room_id) ==> t.without_client(room_id, client_id) == t
                && t.deregistered(now, room_id, client_id) == t
            &&& t.without_unregistered(room_id, client_id) == (if t.rooms.contains_key(room_id)
                && room.clients.contains_key(client_id) && !connected {
                without
            } else {
                t
            })
            &&& t.occupancy(room_id) == room.clients.dom().len()
        }),
        t.after_read(message) == (if t.rooms.contains_key(message.roomid) {
            TableView {
                rooms: t.rooms.insert(message.roomid, t.rooms[message.roomid].after_read(message)),
                ..t
            }
        } else {
            t
        }),
        t.after_write(message) == (if t.rooms.contains_key(message.roomid) {
            TableView {
                rooms: t.rooms.insert(message.roomid, t.rooms[message.roomid].after_write(message)),
                ..t
            }
        } else {
            t
        }),
{
    assert(Map::<Text, crate::client::ClientView>::empty().dom() =~= Set::empty());
}

/// Something is due in a table exactly when a client of one of its rooms is waited for
/// until then; the limit of a room is two clients.
pub proof fn law_deadlines_are_those_of_rooms(t: TableView, room_id: Text, at: Instant)
    ensures
        t.is_deadline(room_id, at) <==> t.rooms.contains_key(room_id) && exists|c: Text| #[trigger]
            t.rooms[room_id].clients.contains_key(c) && t.rooms[room_id].clients[c].timeout == Some(
                at,
            ),
        crate::room::MAX_ROOM_CAPACITY == 2,
{
    if t.rooms.contains_key(room_id) {
        let room = t.rooms[room_id];
        if exists|c: Text| room.is_deadline(c, at) {
            let c = choose|c: Text| room.is_deadline(c, at);
            assert(room.clients.contains_key(c));
        }
        if exists|c: Text| #[trigger] room.clients.contains_key(c) && room.clients[c].timeout == Some(
            at,
        ) {
            let c = choose|c: Text| #[trigger]
                room.clients.contains_key(c) && room.clients[c].timeout == Some(at);
            assert(room.is_deadline(c, at));
        }
    }
}

/// Polling a table polls one of its rooms that has something, and leaves the others as they
/// are; where there is nothing to be had, no room has anything.
pub proof fn law_polls_take_from_one_room(t: TableView)
    requires
        t.rooms.dom().finite(),
    ensures
        ({
            let (after, polled) = t.poll_read();
            match polled {
                Some(msg) => exists|r: Text| #[trigger]
                    t.rooms.contains_key(r) && t.rooms[r].poll_read().1 == Some(msg) && after == (
                    TableView {
                        rooms: t.rooms.insert(r, t.rooms[r].poll_read().0),
                        ..t
                    }),
                None => after == t && forall|r: Text| #[trigger]
                    t.rooms.contains_key(r) ==> t.rooms[r].poll_read().1 is None,
            }
        }),
        ({
            let (after, polled) = t.poll_write();
            match polled {
                Some(msg) => exists|r: Text| #[trigger]
                    t.rooms.contains_key(r) && t.rooms[r].poll_write().1 == Some(msg) && after == (
                    TableView {
                        rooms: t.rooms.insert(r, t.rooms[r].poll_write().0),
                        ..t
                    }),
                None => after == t && forall|r: Text| #[trigger]
                    t.rooms.contains_key(r) ==> t.rooms[r].poll_write().1 is None,
            }
        }),
{
    let ids = t.room_ids();
    ord_map::lemma_in_order::<String>(t.rooms.dom());
    let reading = ids.filter(super::has_reads(t.rooms));
    seqs::lemma_filter_contains(ids, super::has_reads(t.rooms));
    let writing = ids.filter(super::has_writes(t.rooms));
    seqs::lemma_filter_contains(ids, super::has_writes(t.rooms));
    if reading.len() > 0 {
        assert(reading.contains(reading[0]));
        assert(t.rooms.dom().contains(reading[0]));
        assert(t.rooms.contains_key(reading[0]));
    }
    if writing.len() > 0 {
        assert(writing.contains(writing[0]));
        assert(t.rooms.dom().contains(writing[0]));
        assert(t.rooms.contains_key(writing[0]));
    }
    assert forall|r: Text| #[trigger] t.rooms.contains_key(r) implies (t.rooms[r].poll_read().1
        is Some ==> reading.len() > 0) && (t.rooms[r].poll_write().1 is Some ==> writing.len()
        > 0) by {
        assert(t.rooms.dom().contains(r));
        assert(ids.contains(r));
        if t.rooms[r].poll_read().1 is Some {
            assert(reading.contains(r));
        }
        if t.rooms[r].poll_write().1 is Some {
            assert(writing.contains(r));
        }
    }
}

/// What clients have sent is passed on in the order in which it is polled, each message as
/// its sender's, up to the first that is refused.
pub proof fn law_reads_are_relayed_in_turn(t: TableView, now: Instant, n: nat)
    ensures
        t.poll_read().1 is None ==> t.relay_reads(now, n) == (t, Ok::<(), Text>(())),
        t.relay_reads(now, 0) == (t, Ok::<(), Text>(())),
        t.poll_read().1 matches Some(m) ==> {
            let (sent, result) = t.poll_read().0.send(now, m.roomid, m.clientid, m.msg);
            &&& result is Ok ==> t.relay_reads(now, n + 1) == sent.relay_reads(now, n)
            &&& result is Err ==> t.relay_reads(now, n + 1) == (sent, result)
        },
{
}

} // verus!
