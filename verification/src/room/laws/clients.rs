//! What each operation does to the clients of a V1 room.

use super::{lemma_first_other, lemma_single_other};
use crate::client::{ClientEvent, ClientView, MAX_QUEUED_MSG_COUNT};
use crate::messages::MessageView;
use crate::ord_map;
use crate::room::RoomView;
use crate::seqs;
use crate::seqs::Text;
use crate::time::{Duration, Instant};
use vstd::prelude::*;

verus! {

/// The point that lies a span after another, or the last one.
pub open spec fn at_most(now: Instant, span: Duration) -> Instant {
    Instant {
        nanos: if now.nanos + span.nanos <= u128::MAX {
            (now.nanos + span.nanos) as u128
        } else {
            u128::MAX
        },
    }
}

/// A client that has just come to a room: not connected, with nothing queued or under
/// way, and with the register timeout to connect.
pub open spec fn is_newcomer(
    client: ClientView,
    room: RoomView,
    client_id: Text,
    now: Instant,
) -> bool {
    &&& client.id == client_id
    &&& client.room_id == room.id
    &&& !client.registered
    &&& client.msgs.len() == 0
    &&& client.reads.len() == 0
    &&& client.writes.len() == 0
    &&& client.events.len() == 0
    &&& client.timeout == Some(at_most(now, room.register_timeout))
}

/// Whether a client is the only other one beside another.
pub open spec fn is_peer(room: RoomView, client_id: Text, peer_id: Text) -> bool {
    &&& peer_id != client_id
    &&& room.clients.contains_key(peer_id)
    &&& forall|c: Text| #[trigger]
        room.clients.contains_key(c) ==> c == client_id || c == peer_id
}

/// Whether nobody is in a room but, at most, one client.
pub open spec fn is_alone(room: RoomView, client_id: Text) -> bool {
    forall|c: Text| #[trigger] room.clients.contains_key(c) ==> c == client_id
}

proof fn lemma_alone(room: RoomView, client_id: Text)
    requires
        room.clients.dom().finite(),
        is_alone(room, client_id),
    ensures
        room.others(client_id).len() == 0,
{
    if room.others(client_id).len() > 0 {
        lemma_first_other(room, client_id);
    }
}

/// With a client and its peer a room has two.
proof fn lemma_pair(room: RoomView, client_id: Text, peer_id: Text)
    requires
        room.clients.contains_key(client_id),
        is_peer(room, client_id, peer_id),
    ensures
        room.clients.dom() == set![client_id, peer_id],
        room.others(client_id) == seq![peer_id],
{
    assert(room.clients.dom() =~= set![client_id, peer_id]);
    lemma_single_other(room, client_id, peer_id);
}

/// Who can be admitted to a room, and with what. A client that is there is a duplicate,
/// and a room of two is full. The first client offers and finds nothing. The second does
/// not offer, and gets all that the first has queued, in order.
pub proof fn law_admission_hands_over_the_queue(
    room: RoomView,
    now: Instant,
    client_id: Text,
    is_loopback: bool,
    peer_id: Text,
)
    requires
        room.inv(),
    ensures
        ({
            let (after, result) = room.add_client(now, client_id, is_loopback);
            if room.clients.contains_key(client_id) {
                after == room && result == Err::<(bool, Seq<Text>), Text>("DUPLICATE_CLIENT"@)
            } else if room.clients.dom().len() >= 2 {
                after == room && result == Err::<(bool, Seq<Text>), Text>("FULL"@)
            } else if room.clients.dom().len() == 0 {
                result == Ok::<(bool, Seq<Text>), Text>((true, Seq::empty()))
            } else {
                room.clients.contains_key(peer_id) ==> result == Ok::<(bool, Seq<Text>), Text>(
                    (false, room.clients[peer_id].msgs),
                )
            }
        }),
{
    if !room.clients.contains_key(client_id) && room.clients.dom().len() == 0 {
        super::lemma_nothing_queued(room);
        assert(room.queued() =~= Seq::empty());
    }
    if !room.clients.contains_key(client_id) && room.clients.dom().len() == 1
        && room.clients.contains_key(peer_id) {
        let dom = room.clients.dom();
        assert(dom.contains(peer_id));
        assert(dom =~= set![peer_id]) by {
            assert(dom.remove(peer_id).len() == 0);
            assert forall|c: Text| dom.contains(c) implies c == peer_id by {
                if c != peer_id {
                    assert(dom.remove(peer_id).contains(c));
                }
            }
        }
        let ids = room.client_ids();
        ord_map::lemma_in_order::<String>(dom);
        assert(ids.contains(ids[0]));
        assert(dom.contains(ids[0]));
        assert(ids =~= seq![peer_id]);
        let queues = ids.map_values(crate::room::queue_of(room.clients));
        assert(queues =~= seq![room.clients[peer_id].msgs]);
        queues.lemma_flatten_one_element();
    }
}

/// Whom an admission leaves in the room: the one that was there as it was, but with
/// nothing queued any more, and the new one, which offers exactly if it came first. The
/// loopback mode adds its peer, which does not offer, where there is a place.
pub proof fn law_admission_adds_the_client(
    room: RoomView,
    now: Instant,
    client_id: Text,
    is_loopback: bool,
)
    requires
        room.inv(),
        !room.clients.contains_key(client_id),
        room.clients.dom().len() < 2,
    ensures
        ({
            let after = room.add_client(now, client_id, is_loopback).0;
            let loopback = "LOOPBACK_CLIENT_ID"@;
            let simulated = is_loopback && room.clients.dom().len() == 0 && client_id != loopback;
            &&& after.id == room.id
            &&& after.register_timeout == room.register_timeout
            &&& forall|c: Text| #[trigger]
                after.clients.contains_key(c) <==> room.clients.contains_key(c) || c == client_id
                    || simulated && c == loopback
            &&& is_newcomer(after.clients[client_id], room, client_id, now)
            &&& !(is_loopback && client_id == loopback)
                ==> after.clients[client_id].is_initiator == (room.clients.dom().len() == 0)
            &&& simulated ==> is_newcomer(after.clients[loopback], room, loopback, now)
                && !after.clients[loopback].is_initiator
            &&& forall|c: Text| #[trigger]
                room.clients.contains_key(c) && !(is_loopback && c == loopback)
                    ==> after.clients[c] == (ClientView { msgs: Seq::empty(), ..room.clients[c] })
        }),
{
    let drained = room.with_queues_drained();
    assert(drained.clients.dom() =~= room.clients.dom());
    let there = drained.joined(now, client_id);
    assert(there.clients.dom() =~= room.clients.dom().insert(client_id));
    let elected = there.with_client(
        client_id,
        there.clients[client_id].with_initiator(room.is_empty()),
    );
    assert(elected.clients.dom() =~= there.clients.dom());
    if room.clients.dom().len() == 0 {
        assert(room.clients.dom() =~= Set::empty());
    }
}

/// Who can register: a client that is there and not connected, or a new one where there
/// is a place. It is connected and not waited for any more; what its peer has queued is
/// written to it in order, behind what was, and is not queued any more.
pub proof fn law_registration_connects(
    room: RoomView,
    now: Instant,
    client_id: Text,
    peer_id: Text,
)
    requires
        room.inv(),
    ensures
        ({
            let (after, result) = room.register(now, client_id);
            let there = room.clients.contains_key(client_id);
            let client = after.clients[client_id];
            if !there && room.clients.dom().len() >= 2 {
                after == room && result == Err::<(), Text>("Max room capacity reached"@)
            } else if there && room.clients[client_id].registered {
                after == room && result == Err::<(), Text>("Duplicated registration"@)
            } else {
                let written = if there {
                    room.clients[client_id].writes
                } else {
                    Seq::empty()
                };
                &&& result is Ok
                &&& after.id == room.id
                &&& after.register_timeout == room.register_timeout
                &&& forall|c: Text| #[trigger]
                    after.clients.contains_key(c) <==> room.clients.contains_key(c) || c
                        == client_id
                &&& client.registered
                &&& client.timeout is None
                &&& there ==> client == (ClientView {
                    registered: true,
                    timeout: None,
                    writes: client.writes,
                    ..room.clients[client_id]
                })
                &&& !there ==> is_newcomer(
                    ClientView {
                        registered: false,
                        timeout: Some(at_most(now, room.register_timeout)),
                        writes: Seq::empty(),
                        ..client
                    },
                    room,
                    client_id,
                    now,
                ) && !client.is_initiator
                &&& is_alone(room, client_id) ==> client.writes == written
                &&& is_peer(room, client_id, peer_id) ==> {
                    let queued = room.clients[peer_id].msgs;
                    &&& client.writes.len() == written.len() + queued.len()
                    &&& forall|i: int|
                        0 <= i < written.len() ==> #[trigger] client.writes[i] == written[i]
                    &&& forall|i: int|
                        written.len() <= i < client.writes.len() ==> #[trigger] client.writes[i]
                            == (MessageView {
                            roomid: room.id,
                            clientid: client_id,
                            msg: queued[i - written.len()],
                        })
                    &&& after.clients[peer_id] == (ClientView {
                        msgs: Seq::empty(),
                        ..room.clients[peer_id]
                    })
                }
            }
        }),
{
    let (after, result) = room.register(now, client_id);
    if result is Ok {
        let there = room.joined(now, client_id);
        let here = there.with_client(client_id, there.clients[client_id].connected());
        assert(here.clients.dom() =~= room.clients.dom().insert(client_id));
        if is_alone(room, client_id) {
            assert(is_alone(here, client_id));
            lemma_alone(here, client_id);
        }
        if is_peer(room, client_id, peer_id) {
            lemma_pair(here, client_id, peer_id);
        }
        if here.others(client_id).len() > 0 {
            lemma_first_other(here, client_id);
        }
        assert(after.clients.dom() =~= here.clients.dom());
    }
}

/// What becomes of a message: it is written to a connected peer, behind what was, or waits
/// with its sender, behind what waits there, up to the limit. A sender that was not there
/// comes to the room, if there is a place.
pub proof fn law_message_is_written_or_queued(
    room: RoomView,
    now: Instant,
    source_id: Text,
    msg: Text,
    peer_id: Text,
)
    requires
        room.inv(),
    ensures
        ({
            let (after, result) = room.send(now, source_id, msg);
            let there = room.clients.contains_key(source_id);
            let queued = if there {
                room.clients[source_id].msgs
            } else {
                Seq::empty()
            };
            let source = after.clients[source_id];
            if !there && room.clients.dom().len() >= 2 {
                after == room && result == Err::<(), Text>("Max room capacity reached"@)
            } else {
                &&& after.id == room.id
                &&& after.register_timeout == room.register_timeout
                &&& forall|c: Text| #[trigger]
                    after.clients.contains_key(c) <==> room.clients.contains_key(c) || c
                        == source_id
                &&& there ==> source == (ClientView { msgs: source.msgs, ..room.clients[source_id] })
                &&& !there ==> is_newcomer(
                    ClientView { msgs: Seq::empty(), ..source },
                    room,
                    source_id,
                    now,
                ) && !source.is_initiator
                &&& is_peer(room, source_id, peer_id) && room.clients[peer_id].registered ==> {
                    &&& result is Ok
                    &&& source.msgs == queued
                    &&& after.clients[peer_id] == (ClientView {
                        writes: room.clients[peer_id].writes.push(
                            MessageView { roomid: room.id, clientid: peer_id, msg },
                        ),
                        ..room.clients[peer_id]
                    })
                }
                &&& is_alone(room, source_id) || is_peer(room, source_id, peer_id)
                    && !room.clients[peer_id].registered ==> {
                    &&& is_peer(room, source_id, peer_id) ==> after.clients[peer_id]
                        == room.clients[peer_id]
                    &&& if queued.len() < MAX_QUEUED_MSG_COUNT {
                        result is Ok && source.msgs == queued.push(msg)
                    } else {
                        result == Err::<(), Text>("Too many messages queued for the client"@)
                            && source.msgs == queued
                    }
                }
            }
        }),
{
    let (after, result) = room.send(now, source_id, msg);
    if room.can_hold(source_id) {
        let there = room.joined(now, source_id);
        assert(there.clients.dom() =~= room.clients.dom().insert(source_id));
        if is_alone(room, source_id) {
            assert(is_alone(there, source_id));
            lemma_alone(there, source_id);
        }
        if is_peer(room, source_id, peer_id) {
            lemma_pair(there, source_id, peer_id);
        }
        if there.others(source_id).len() > 0 {
            lemma_first_other(there, source_id);
        }
        assert(after.clients.dom() =~= there.clients.dom());
    }
}

/// A departure takes the client, and makes whoever is left the one that offers; nothing
/// else about it changes. The departure of a stranger changes nothing.
pub proof fn law_departure_promotes_whoever_is_left(room: RoomView, client_id: Text)
    ensures
        ({
            let after = room.without(client_id);
            &&& after.id == room.id
            &&& after.register_timeout == room.register_timeout
            &&& forall|c: Text| #[trigger]
                after.clients.contains_key(c) <==> room.clients.contains_key(c) && c != client_id
            &&& forall|c: Text| #[trigger]
                room.clients.contains_key(c) && c != client_id ==> after.clients[c] == (
                if room.clients.contains_key(client_id) {
                    ClientView { is_initiator: true, ..room.clients[c] }
                } else {
                    room.clients[c]
                })
        }),
{
}

/// A client that loses its connection stays, with all that it has, and has the register
/// timeout to come back.
pub proof fn law_lost_connection_is_waited_for(room: RoomView, now: Instant, client_id: Text)
    ensures
        ({
            let after = room.deregistered(now, client_id);
            &&& after.id == room.id
            &&& after.register_timeout == room.register_timeout
            &&& forall|c: Text| #[trigger]
                after.clients.contains_key(c) <==> room.clients.contains_key(c)
            &&& forall|c: Text| #[trigger]
                room.clients.contains_key(c) ==> after.clients[c] == (if c == client_id
                    && room.clients[c].registered {
                    ClientView {
                        registered: false,
                        timeout: Some(at_most(now, room.register_timeout)),
                        ..room.clients[c]
                    }
                } else {
                    room.clients[c]
                })
        }),
{
}

/// Time takes exactly the clients that are not connected and whose deadline is reached.
/// Where it took one, whoever is left offers; nothing else changes.
pub proof fn law_time_takes_the_late(room: RoomView, now: Instant)
    requires
        room.inv(),
    ensures
        ({
            let after = room.handle_timeout(now);
            &&& after.id == room.id
            &&& after.register_timeout == room.register_timeout
            &&& forall|c: Text| #[trigger]
                after.clients.contains_key(c) <==> room.clients.contains_key(c) && !is_late(
                    room.clients[c],
                    now,
                )
            &&& (exists|c: Text| #[trigger]
                room.clients.contains_key(c) && is_late(room.clients[c], now)) ==> forall|c: Text|
             #[trigger]
                after.clients.contains_key(c) ==> after.clients[c] == (ClientView {
                    is_initiator: true,
                    ..room.clients[c]
                })
            &&& (forall|c: Text| #[trigger]
                room.clients.contains_key(c) ==> !is_late(room.clients[c], now)) ==> after == room
        }),
{
    let after = room.handle_timeout(now);
    let p = crate::room::is_expired(room.clients, now);
    ord_map::lemma_in_order::<String>(room.clients.dom());
    seqs::lemma_filter_contains(room.client_ids(), p);
    assert forall|c: Text| #[trigger] room.clients.contains_key(c) implies p(c) == is_late(
        room.clients[c],
        now,
    ) by {
        let client = room.clients[c];
        assert(client.inv());
        assert(client.events.push(ClientEvent::Expired).len() == 1);
    }
    let expired = room.expired(now);
    if expired.len() > 0 {
        assert(expired.contains(expired[0]));
        assert(room.clients.dom().contains(expired[0]));
        assert(room.clients.contains_key(expired[0]));
        assert(is_late(room.clients[expired[0]], now));
    }
    assert forall|c: Text|
        #[trigger] room.clients.contains_key(c) && is_late(room.clients[c], now) implies expired.len()
        > 0 by {
        assert(room.clients.dom().contains(c));
        assert(room.client_ids().contains(c));
        assert(expired.contains(c));
    }
    if forall|c: Text| #[trigger]
        room.clients.contains_key(c) ==> !is_late(room.clients[c], now) {
        assert(after.clients =~= room.clients);
    }
}

/// Whether a client is not connected although its time to connect is over.
pub open spec fn is_late(client: ClientView, now: Instant) -> bool {
    &&& !client.registered
    &&& client.timeout matches Some(deadline)
    &&& deadline.nanos <= now.nanos
}

/// Something is due in a room exactly when a client of it is waited for until then.
pub proof fn law_deadlines_are_those_of_clients(room: RoomView, client_id: Text, t: Instant)
    ensures
        room.is_deadline(client_id, t) <==> room.clients.contains_key(client_id)
            && room.clients[client_id].timeout == Some(t),
{
}

/// What was received from and delivered to a client of the room stands behind what was
/// there, and concerns nobody else.
pub proof fn law_sockets_append(room: RoomView, msg: MessageView)
    ensures
        ({
            let c = msg.clientid;
            let read = room.after_read(msg);
            let written = room.after_write(msg);
            if room.clients.contains_key(c) {
                &&& read == (RoomView {
                    clients: room.clients.insert(
                        c,
                        ClientView {
                            reads: room.clients[c].reads.push(msg),
                            ..room.clients[c]
                        },
                    ),
                    ..room
                })
                &&& written == (RoomView {
                    clients: room.clients.insert(
                        c,
                        ClientView {
                            writes: room.clients[c].writes.push(msg),
                            ..room.clients[c]
                        },
                    ),
                    ..room
                })
            } else {
                read == room && written == room
            }
        }),
{
}

/// Polling takes the oldest message of a client that has one, and only that.
pub proof fn law_polls_take_the_oldest(room: RoomView)
    requires
        room.clients.dom().finite(),
    ensures
        ({
            let (after, polled) = room.poll_read();
            match polled {
                Some(msg) => exists|c: Text| #[trigger]
                    room.clients.contains_key(c) && room.clients[c].reads.len() > 0 && msg
                        == room.clients[c].reads[0] && after == (RoomView {
                        clients: room.clients.insert(
                            c,
                            ClientView { reads: room.clients[c].reads.skip(1), ..room.clients[c] },
                        ),
                        ..room
                    }),
                None => after == room && forall|c: Text| #[trigger]
                    room.clients.contains_key(c) ==> room.clients[c].reads.len() == 0,
            }
        }),
        ({
            let (after, polled) = room.poll_write();
            match polled {
                Some(msg) => exists|c: Text| #[trigger]
                    room.clients.contains_key(c) && room.clients[c].writes.len() > 0 && msg
                        == room.clients[c].writes[0] && after == (RoomView {
                        clients: room.clients.insert(
                            c,
                            ClientView {
                                writes: room.clients[c].writes.skip(1),
                                ..room.clients[c]
                            },
                        ),
                        ..room
                    }),
                None => after == room && forall|c: Text| #[trigger]
                    room.clients.contains_key(c) ==> room.clients[c].writes.len() == 0,
            }
        }),
{
    let ids = room.client_ids();
    ord_map::lemma_in_order::<String>(room.clients.dom());
    let reading = ids.filter(crate::room::has_reads(room.clients));
    seqs::lemma_filter_contains(ids, crate::room::has_reads(room.clients));
    if reading.len() > 0 {
        assert(reading.contains(reading[0]));
        assert(room.clients.dom().contains(reading[0]));
        assert(room.clients.contains_key(reading[0]));
    }
    let writing = ids.filter(crate::room::has_writes(room.clients));
    seqs::lemma_filter_contains(ids, crate::room::has_writes(room.clients));
    if writing.len() > 0 {
        assert(writing.contains(writing[0]));
        assert(room.clients.dom().contains(writing[0]));
        assert(room.clients.contains_key(writing[0]));
    }
    assert forall|c: Text| #[trigger] room.clients.contains_key(c) implies (
    room.clients[c].reads.len() > 0 ==> reading.len() > 0) && (room.clients[c].writes.len() > 0
        ==> writing.len() > 0) by {
        assert(room.clients.dom().contains(c));
        assert(ids.contains(c));
        if room.clients[c].reads.len() > 0 {
            assert(reading.contains(c));
        }
        if room.clients[c].writes.len() > 0 {
            assert(writing.contains(c));
        }
    }
}

/// What is said of rooms: who is there, who is connected, whether there is a place, and
/// what a new room is.
pub proof fn law_terms_of_a_room(room: RoomView, id: Text, timeout: Duration, client_id: Text)
    ensures
        RoomView::initial(id, timeout) == (RoomView {
            id,
            clients: Map::empty(),
            register_timeout: timeout,
        }),
        room.has(client_id) <==> room.clients.contains_key(client_id),
        room.is_empty() <==> room.clients.dom().len() == 0,
        room.is_connected(client_id) <==> room.clients.contains_key(client_id)
            && room.clients[client_id].registered,
        room.can_hold(client_id) <==> room.clients.contains_key(client_id)
            || room.clients.dom().len() < 2,
        room.connected().contains(client_id) <==> room.clients.contains_key(client_id)
            && room.clients[client_id].registered,
{
}

/// A client that comes to a room is a newcomer that does not offer; one that is there, and
/// everybody else, stays as it was.
pub proof fn law_client_comes_once(room: RoomView, now: Instant, client_id: Text)
    ensures
        ({
            let after = room.joined(now, client_id);
            if room.clients.contains_key(client_id) {
                after == room
            } else {
                &&& after == (RoomView {
                    clients: room.clients.insert(client_id, after.clients[client_id]),
                    ..room
                })
                &&& is_newcomer(after.clients[client_id], room, client_id, now)
                &&& !after.clients[client_id].is_initiator
            }
        }),
{
}

} // verus!
