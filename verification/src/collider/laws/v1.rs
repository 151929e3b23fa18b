//! What room servers and browsers of V1 rooms get.

use super::news::is_frame;
use crate::client::{ClientView, MAX_QUEUED_MSG_COUNT};
use crate::collider::model;
use crate::collider::model::{Session, State};
use crate::collider::{
    AuthorityCommandView, AuthorityOperationView, AuthorityResponseView, AuthorityResultView,
    BrowserInputView, BrowserOutputView,
};
use crate::messages;
use crate::messages::{MessageView, WsClientMsgView};
use crate::room::laws::clients as rooms;
use crate::room::laws::clients::{is_alone, is_late, is_newcomer, is_peer};
use crate::room::RoomView;
use crate::room_table::laws as tables;
use crate::room_table::TableView;
use crate::seqs::Text;
use crate::time::Instant;
use crate::wire;
use crate::wire::Field;
use vstd::prelude::*;

verus! {

/// A room, or an empty one where it does not exist.
pub open spec fn room_of(t: TableView, roomid: Text) -> RoomView {
    if t.rooms.contains_key(roomid) {
        t.rooms[roomid]
    } else {
        RoomView { id: roomid, clients: Map::empty(), register_timeout: t.register_timeout }
    }
}

/// The tables differ in one room at most.
pub open spec fn only_room(t: TableView, u: TableView, roomid: Text) -> bool {
    &&& u.register_timeout == t.register_timeout
    &&& forall|r: Text|
        #![trigger u.rooms.contains_key(r)]
        #![trigger t.rooms.contains_key(r)]
        r != roomid ==> u.rooms.contains_key(r) == t.rooms.contains_key(r) && (
        t.rooms.contains_key(r) ==> u.rooms[r] == t.rooms[r])
}

/// Apart from the V1 rooms and one answer nothing has changed.
pub open spec fn only_answered(
    s: State,
    t: State,
    request_id: u64,
    result: AuthorityResultView,
) -> bool {
    t == (State {
        rooms: t.rooms,
        authority_responses: s.authority_responses.push(
            AuthorityResponseView { request_id, result },
        ),
        ..s
    })
}

proof fn lemma_room_of(t: TableView, roomid: Text)
    requires
        t.inv(),
    ensures
        room_of(t, roomid).inv(),
        room_of(t, roomid).id == roomid,
        room_of(t, roomid) == t.room(roomid),
{
    tables::lemma_room(t, roomid);
}

proof fn lemma_answered(s: State, request_id: u64, result: AuthorityResultView)
    requires
        s.v2_rooms.actions.len() == 0,
    ensures
        only_answered(s, s.answered(request_id, result), request_id, result),
        s.answered(request_id, result).rooms == s.rooms,
{
    super::lemma_actions_drained(s.with_response(request_id, result));
}

/// The answer to the admission of a V1 client. A client that is there is a duplicate, and
/// a room of two is full. The first client offers, and there is nothing for it. The
/// second does not offer, and gets everything that its peer had queued before the command,
/// in order and whole; after it nothing is queued. No browser hears anything.
#[verifier::rlimit(40)]
pub proof fn law_v1_admission_is_answered(
    s: State,
    request_id: u64,
    roomid: Text,
    clientid: Text,
    is_loopback: bool,
    now: Instant,
    peerid: Text,
)
    requires
        s.inv(),
        s.v2_rooms.actions.len() == 0,
    ensures
        ({
            let clients = room_of(s.rooms, roomid).clients;
            let t = s.handle_authority(
                AuthorityCommandView {
                    request_id,
                    operation: AuthorityOperationView::Admit { roomid, clientid, is_loopback, now },
                },
            );
            let after = t.rooms.rooms[roomid];
            &&& only_room(s.rooms, t.rooms, roomid)
            &&& t.rooms.rooms.contains_key(roomid)
            &&& if clients.contains_key(clientid) {
                after.clients == clients && only_answered(
                    s,
                    t,
                    request_id,
                    AuthorityResultView::Error { result: "DUPLICATE_CLIENT"@ },
                )
            } else if clients.dom().len() >= 2 {
                after.clients == clients && only_answered(
                    s,
                    t,
                    request_id,
                    AuthorityResultView::Error { result: "FULL"@ },
                )
            } else {
                &&& after.clients.contains_key(clientid)
                &&& is_newcomer(after.clients[clientid], room_of(s.rooms, roomid), clientid, now)
                &&& !is_loopback ==> after.clients.dom() == clients.dom().insert(clientid)
                    && after.clients[clientid].is_initiator == (clients.dom().len() == 0)
                &&& clients.dom().len() == 0 ==> only_answered(
                    s,
                    t,
                    request_id,
                    AuthorityResultView::Admitted { is_initiator: true, messages: Seq::empty() },
                )
                &&& clients.contains_key(peerid) ==> only_answered(
                    s,
                    t,
                    request_id,
                    AuthorityResultView::Admitted {
                        is_initiator: false,
                        messages: clients[peerid].msgs,
                    },
                )
                &&& clients.contains_key(peerid) && !is_loopback ==> after.clients[peerid] == (
                ClientView { msgs: Seq::empty(), ..clients[peerid] })
            }
        }),
{
    let room = room_of(s.rooms, roomid);
    lemma_room_of(s.rooms, roomid);
    rooms::law_admission_hands_over_the_queue(room, now, clientid, is_loopback, peerid);
    let (after, result) = room.add_client(now, clientid, is_loopback);
    let t = State { rooms: s.rooms.with_room(roomid, after), ..s };
    let answer = match result {
        Ok((is_initiator, messages)) => AuthorityResultView::Admitted { is_initiator, messages },
        Err(result) => AuthorityResultView::Error { result },
    };
    lemma_answered(t, request_id, answer);
    if !room.clients.contains_key(clientid) && room.clients.dom().len() < 2 {
        rooms::law_admission_adds_the_client(room, now, clientid, is_loopback);
        if !is_loopback {
            assert(after.clients.dom() =~= room.clients.dom().insert(clientid));
        }
        if room.clients.contains_key(peerid) && room.clients.dom().len() == 0 {
            assert(room.clients.dom().contains(peerid));
            assert(room.clients.dom() =~= Set::empty());
        }
    }
}

/// A V1 client that a room server removes is gone; whoever is left offers, and with the
/// last one the room is gone. Its connection, if it has one, is closed and forgotten. The
/// answer is the same for a stranger, which changes nothing.
pub proof fn law_v1_removal_is_answered(s: State, request_id: u64, roomid: Text, clientid: Text)
    requires
        s.inv(),
        s.v2_rooms.actions.len() == 0,
    ensures
        ({
            let clients = room_of(s.rooms, roomid).clients;
            let t = s.handle_authority(
                AuthorityCommandView {
                    request_id,
                    operation: AuthorityOperationView::Remove { roomid, clientid },
                },
            );
            let key = (roomid, clientid);
            let id = s.connections[key];
            let connected = s.connections.contains_key(key);
            &&& only_room(s.rooms, t.rooms, roomid)
            &&& t.authority_responses == s.authority_responses.push(
                AuthorityResponseView { request_id, result: AuthorityResultView::Removed },
            )
            &&& t.browser_outputs == (if connected {
                s.browser_outputs.push(BrowserOutputView::Close { connection_id: id })
            } else {
                s.browser_outputs
            })
            &&& t.connections == (if connected {
                s.connections.remove(key)
            } else {
                s.connections
            })
            &&& t.sessions == (if connected {
                s.sessions.remove(id)
            } else {
                s.sessions
            })
            &&& t.v2_rooms == s.v2_rooms
            &&& t.v2_connections == s.v2_connections
            &&& forall|c: Text| #[trigger]
                clients.contains_key(c) && c != clientid ==> t.rooms.rooms.contains_key(roomid)
                    && t.rooms.rooms[roomid].clients.contains_key(c)
                    && t.rooms.rooms[roomid].clients[c] == (if clients.contains_key(clientid) {
                    ClientView { is_initiator: true, ..clients[c] }
                } else {
                    clients[c]
                })
            &&& t.rooms.rooms.contains_key(roomid) ==> {
                &&& !t.rooms.rooms[roomid].clients.contains_key(clientid)
                &&& t.rooms.rooms[roomid].clients.dom() == clients.dom().remove(clientid)
                &&& t.rooms.rooms[roomid].clients.dom().len() > 0
            }
        }),
{
    let room = room_of(s.rooms, roomid);
    lemma_room_of(s.rooms, roomid);
    rooms::law_departure_promotes_whoever_is_left(room, clientid);
    let closed = s.with_client_closed(roomid, clientid);
    let t = State { rooms: s.rooms.without_client(roomid, clientid), ..closed };
    lemma_answered(t, request_id, AuthorityResultView::Removed);
    let left = room.without(clientid);
    assert(left.clients.dom() =~= room.clients.dom().remove(clientid));
    assert forall|c: Text| #[trigger]
        room.clients.contains_key(c) && c != clientid implies left.clients.dom().len() > 0 by {
        assert(left.clients.dom().contains(c));
        if left.clients.dom().len() == 0 {
            assert(left.clients.dom() =~= Set::empty());
        }
    }
}

/// A room server is told how many clients are in a V1 room.
pub proof fn law_v1_occupancy_is_answered(s: State, request_id: u64, roomid: Text)
    requires
        s.v2_rooms.actions.len() == 0,
    ensures
        ({
            let t = s.handle_authority(
                AuthorityCommandView {
                    request_id,
                    operation: AuthorityOperationView::Occupancy { roomid },
                },
            );
            &&& t.rooms == s.rooms
            &&& only_answered(
                s,
                t,
                request_id,
                AuthorityResultView::Occupancy { count: room_of(s.rooms, roomid).clients.dom().len() },
            )
        }),
{
    lemma_answered(
        s,
        request_id,
        AuthorityResultView::Occupancy { count: s.rooms.occupancy(roomid) },
    );
    assert(Map::<Text, ClientView>::empty().dom() =~= Set::empty());
}

/// What is written to one client goes to its connection, a frame for each message, in
/// order.
#[verifier::rlimit(40)]
proof fn lemma_writes_go_out(s: State, roomid: Text, clientid: Text)
    requires
        s.rooms.inv(),
        s.rooms.rooms.contains_key(roomid),
        s.rooms.rooms[roomid].clients.contains_key(clientid),
        s.connections.contains_key((roomid, clientid)),
        forall|r: Text, c: Text|
            s.rooms.rooms.contains_key(r) && !(r == roomid && c == clientid)
                && #[trigger] s.rooms.rooms[r].clients.contains_key(c)
                ==> s.rooms.rooms[r].clients[c].writes.len() == 0,
        forall|i: int|
            0 <= i < s.rooms.rooms[roomid].clients[clientid].writes.len() ==> (
            #[trigger] s.rooms.rooms[roomid].clients[clientid].writes[i]).roomid == roomid
                && s.rooms.rooms[roomid].clients[clientid].writes[i].clientid == clientid,
    ensures
        ({
            let t = s.with_room_writes_drained();
            let writes = s.rooms.rooms[roomid].clients[clientid].writes;
            let n = s.browser_outputs.len();
            &&& t == (State { rooms: t.rooms, browser_outputs: t.browser_outputs, ..s })
            &&& t.browser_outputs.len() == n + writes.len()
            &&& s.browser_outputs.is_prefix_of(t.browser_outputs)
            &&& forall|i: int|
                0 <= i < writes.len() ==> is_frame(
                    #[trigger] t.browser_outputs[n + i],
                    s.connections[(roomid, clientid)],
                    seq![
                        ("msg"@, Field::Text(writes[i].msg)),
                        ("error"@, Field::Text(Seq::empty())),
                    ],
                )
            &&& t.rooms.register_timeout == s.rooms.register_timeout
            &&& t.rooms.rooms.dom() == s.rooms.rooms.dom()
            &&& forall|r: Text| #[trigger]
                s.rooms.rooms.contains_key(r) && r != roomid ==> t.rooms.rooms[r]
                    == s.rooms.rooms[r]
            &&& t.rooms.rooms[roomid].clients.dom() == s.rooms.rooms[roomid].clients.dom()
            &&& forall|c: Text| #[trigger]
                s.rooms.rooms[roomid].clients.contains_key(c) ==> t.rooms.rooms[roomid].clients[c]
                    == (ClientView {
                    writes: Seq::empty(),
                    ..s.rooms.rooms[roomid].clients[c]
                })
        }),
{
    let t = s.with_room_writes_drained();
    let writes = s.rooms.rooms[roomid].clients[clientid].writes;
    let n = s.browser_outputs.len();
    tables::lemma_client_writes(s.rooms, roomid, clientid);
    let p = model::is_deliverable(s.connections);
    let g = model::delivered(s.connections);
    assert forall|i: int| 0 <= i < writes.len() implies p(#[trigger] writes[i]) by {}
    lemma_filter_all(writes, p);
    assert(t.browser_outputs == s.browser_outputs + writes.map_values(g));
    assert forall|i: int| 0 <= i < writes.len() implies is_frame(
        #[trigger] t.browser_outputs[n + i],
        s.connections[(roomid, clientid)],
        seq![("msg"@, Field::Text(writes[i].msg)), ("error"@, Field::Text(Seq::empty()))],
    ) by {
        wire::law_relay_frame_carries_the_payload(writes[i].msg, writes[i].msg);
        assert(t.browser_outputs[n + i] == g(writes[i]));
    }
    assert(t.rooms.rooms.dom() =~= s.rooms.rooms.dom());
    assert forall|r: Text| #[trigger]
        s.rooms.rooms.contains_key(r) && r != roomid implies t.rooms.rooms[r]
        == s.rooms.rooms[r] by {
        let room = s.rooms.rooms[r];
        assert(t.rooms.rooms[r] == room.without_writes());
        assert forall|c: Text| room.clients.dom().contains(c) implies (
        #[trigger] room.without_writes().clients[c]) == room.clients[c] by {
            assert(room.clients.contains_key(c));
            assert(room.clients[c].writes =~= Seq::empty());
        }
        assert(room.without_writes().clients =~= room.clients);
    }
    assert(t.rooms.rooms[roomid] == s.rooms.rooms[roomid].without_writes());
    assert(t.rooms.rooms[roomid].clients.dom() =~= s.rooms.rooms[roomid].clients.dom());
}

proof fn lemma_filter_all(s: Seq<MessageView>, p: spec_fn(MessageView) -> bool)
    requires
        forall|i: int| 0 <= i < s.len() ==> p(#[trigger] s[i]),
    ensures
        s.filter(p) == s,
    decreases s.len(),
{
    reveal(Seq::filter);
    if s.len() > 0 {
        let front = s.drop_last();
        assert forall|i: int| 0 <= i < front.len() implies p(#[trigger] front[i]) by {
            assert(front[i] == s[i]);
        }
        lemma_filter_all(front, p);
        assert(s.last() == s[s.len() - 1]);
        assert(front.push(s.last()) =~= s);
    } else {
        assert(s.filter(p) =~= s);
    }
}

/// Where the tables differ in one room, and that room has nobody to be written to.
proof fn lemma_nothing_goes_out(s: State)
    requires
        s.rooms.inv(),
        s.rooms.is_written(),
    ensures
        s.with_room_writes_drained() == s,
{
    tables::lemma_nothing_written(s.rooms);
    let p = model::is_deliverable(s.connections);
    assert(s.rooms.writes().filter(p) =~= Seq::empty()) by {
        reveal(Seq::filter);
    }
    assert(s.with_room_writes_drained().browser_outputs =~= s.browser_outputs);
}

/// What a message of a V1 client leads to, if it is taken: the peer, where it is connected,
/// gets it whole in one frame and nothing stays behind; otherwise it waits with its sender,
/// behind what waits there, and nobody hears anything.
pub open spec fn is_delivered(
    s: State,
    t: State,
    roomid: Text,
    clientid: Text,
    peerid: Text,
    msg: Text,
) -> bool {
    let clients = room_of(s.rooms, roomid).clients;
    let after = t.rooms.rooms[roomid].clients;
    let queued = if clients.contains_key(clientid) {
        clients[clientid].msgs
    } else {
        Seq::empty()
    };
    let room = room_of(s.rooms, roomid);
    &&& only_room(s.rooms, t.rooms, roomid)
    &&& t.rooms.rooms.contains_key(roomid)
    &&& forall|c: Text| #[trigger]
        after.contains_key(c) <==> clients.contains_key(c) || c == clientid
    &&& clients.contains_key(clientid) ==> after[clientid] == (ClientView {
        msgs: after[clientid].msgs,
        ..clients[clientid]
    })
    &&& clients.contains_key(peerid) && peerid != clientid ==> after[peerid] == clients[peerid]
    &&& if is_peer(room, clientid, peerid) && clients[peerid].registered {
        &&& after[clientid].msgs == queued
        &&& t.browser_outputs.len() == s.browser_outputs.len() + 1
        &&& s.browser_outputs.is_prefix_of(t.browser_outputs)
        &&& is_frame(
            t.browser_outputs.last(),
            s.connections[(roomid, peerid)],
            seq![("msg"@, Field::Text(msg)), ("error"@, Field::Text(Seq::empty()))],
        )
    } else {
        &&& after[clientid].msgs == queued.push(msg)
        &&& t.browser_outputs == s.browser_outputs
    }
}

/// Sending, and writing what is to be written.
#[verifier::rlimit(40)]
proof fn lemma_sent_and_written(
    s: State,
    now: Instant,
    roomid: Text,
    clientid: Text,
    peerid: Text,
    msg: Text,
)
    requires
        s.inv(),
        is_alone(room_of(s.rooms, roomid), clientid) || is_peer(
            room_of(s.rooms, roomid),
            clientid,
            peerid,
        ),
    ensures
        ({
            let room = room_of(s.rooms, roomid);
            let (rooms, result) = s.rooms.send(now, roomid, clientid, msg);
            let t = State { rooms, ..s }.with_room_writes_drained();
            let full = room.clients.contains_key(clientid) && room.clients[clientid].msgs.len()
                >= MAX_QUEUED_MSG_COUNT;
            let reached = is_peer(room, clientid, peerid) && room.clients[peerid].registered;
            &&& result is Err <==> full && !reached
            &&& result is Err ==> result == Err::<(), Text>(
                "Too many messages queued for the client"@,
            ) && rooms == s.rooms
            &&& result is Ok ==> is_delivered(s, t, roomid, clientid, peerid, msg) && t == (State {
                rooms: t.rooms,
                browser_outputs: t.browser_outputs,
                ..s
            })
        }),
{
    let room = room_of(s.rooms, roomid);
    lemma_room_of(s.rooms, roomid);
    rooms::law_message_is_written_or_queued(room, now, clientid, msg, peerid);
    let (rooms, result) = s.rooms.send(now, roomid, clientid, msg);
    let after = rooms.rooms[roomid];
    tables::law_clients_keep_inv(s.rooms, now, roomid, clientid, false, msg);
    let sent = State { rooms, ..s };
    assert forall|c: Text| #[trigger] room.clients.contains_key(c) implies room.clients[
        c
    ].writes.len() == 0 by {
        assert(s.rooms.rooms[roomid].clients.contains_key(c));
    }
    assert(room.can_hold(clientid)) by {
        if !room.clients.contains_key(clientid) {
            if is_alone(room, clientid) {
                assert(room.clients.dom() =~= Set::empty());
            } else {
                assert(room.clients.dom() =~= set![peerid]);
            }
        }
    }
    if result is Err {
        assert(room.clients.contains_key(clientid));
        assert(after.clients =~= room.clients) by {
            assert forall|c: Text| room.clients.dom().contains(c) implies after.clients[c]
                == room.clients[c] by {
                assert(room.clients.contains_key(c));
                if c == clientid {
                    assert(after.clients[c] =~= room.clients[c]);
                }
            }
            assert(after.clients.dom() =~= room.clients.dom());
        }
        assert(s.rooms.rooms.contains_key(roomid));
        assert(rooms.rooms =~= s.rooms.rooms);
    } else if is_peer(room, clientid, peerid) && room.clients[peerid].registered {
        assert(s.rooms.is_connected(roomid, peerid));
        assert(s.connections.contains_key((roomid, peerid)));
        assert(after.clients[peerid].writes =~= seq![
            MessageView { roomid, clientid: peerid, msg },
        ]);
        assert forall|r: Text, c: Text|
            rooms.rooms.contains_key(r) && !(r == roomid && c == peerid)
                && #[trigger] rooms.rooms[r].clients.contains_key(
                c,
            ) implies rooms.rooms[r].clients[c].writes.len() == 0 by {
            if r == roomid {
                assert(c == clientid);
                assert(after.clients[clientid].writes.len() == 0);
            } else {
                assert(s.rooms.rooms[r].clients.contains_key(c));
            }
        }
        lemma_writes_go_out(sent, roomid, peerid);
        let t = sent.with_room_writes_drained();
        assert(t.browser_outputs.last() == t.browser_outputs[s.browser_outputs.len() as int + 0]);
        assert(after.clients.contains_key(peerid));
        assert(after.clients.contains_key(clientid));
        assert(t.rooms.rooms[roomid].clients[peerid] =~= room.clients[peerid]);
        assert(room.clients.contains_key(clientid) ==> t.rooms.rooms[roomid].clients[clientid]
            =~= room.clients[clientid]);
        assert forall|c: Text| #[trigger]
            t.rooms.rooms[roomid].clients.contains_key(c) <==> room.clients.contains_key(c) || c
                == clientid by {
            assert(t.rooms.rooms[roomid].clients.dom().contains(c) <==> after.clients.dom().contains(c));
            assert(after.clients.contains_key(c) <==> room.clients.contains_key(c) || c == clientid);
        }
        assert forall|r: Text|
            #![trigger t.rooms.rooms.contains_key(r)]
            #![trigger s.rooms.rooms.contains_key(r)]
            r != roomid implies t.rooms.rooms.contains_key(r) == s.rooms.rooms.contains_key(r) && (
        s.rooms.rooms.contains_key(r) ==> t.rooms.rooms[r] == s.rooms.rooms[r]) by {
            assert(t.rooms.rooms.dom().contains(r) <==> rooms.rooms.dom().contains(r));
            if s.rooms.rooms.contains_key(r) {
                assert(rooms.rooms.contains_key(r));
            }
        }
    } else {
        assert(rooms.is_written()) by {
            assert forall|r: Text, c: Text|
                rooms.rooms.contains_key(r) && #[trigger] rooms.rooms[r].clients.contains_key(
                    c,
                ) implies rooms.rooms[r].clients[c].writes.len() == 0 by {
                if r == roomid {
                    if c == clientid {
                    } else {
                        assert(c == peerid);
                    }
                } else {
                    assert(s.rooms.rooms[r].clients.contains_key(c));
                }
            }
        }
        lemma_nothing_goes_out(sent);
    }
}

/// A message that a room server injects for a client goes the way of one that the client
/// sends, and the room server is told that it did, or that too many wait.
pub proof fn law_v1_injection_is_delivered(
    s: State,
    request_id: u64,
    roomid: Text,
    clientid: Text,
    peerid: Text,
    msg: Text,
    now: Instant,
)
    requires
        s.inv(),
        s.v2_rooms.actions.len() == 0,
        is_alone(room_of(s.rooms, roomid), clientid) || is_peer(
            room_of(s.rooms, roomid),
            clientid,
            peerid,
        ),
    ensures
        ({
            let room = room_of(s.rooms, roomid);
            let t = s.handle_authority(
                AuthorityCommandView {
                    request_id,
                    operation: AuthorityOperationView::Inject { roomid, clientid, msg, now },
                },
            );
            let full = room.clients.contains_key(clientid) && room.clients[clientid].msgs.len()
                >= MAX_QUEUED_MSG_COUNT;
            let reached = is_peer(room, clientid, peerid) && room.clients[peerid].registered;
            if full && !reached {
                t.rooms == s.rooms && only_answered(
                    s,
                    t,
                    request_id,
                    AuthorityResultView::Error {
                        result: "Too many messages queued for the client"@,
                    },
                )
            } else {
                &&& is_delivered(s, t, roomid, clientid, peerid, msg)
                &&& t == (State {
                    rooms: t.rooms,
                    browser_outputs: t.browser_outputs,
                    authority_responses: s.authority_responses.push(
                        AuthorityResponseView { request_id, result: AuthorityResultView::Injected },
                    ),
                    ..s
                })
            }
        }),
{
    lemma_sent_and_written(s, now, roomid, clientid, peerid, msg);
    let (rooms, result) = s.rooms.send(now, roomid, clientid, msg);
    let t = State { rooms, ..s };
    match result {
        Ok(_) => lemma_answered(
            t.with_room_writes_drained(),
            request_id,
            AuthorityResultView::Injected,
        ),
        Err(e) => lemma_answered(t, request_id, AuthorityResultView::Error { result: e }),
    }
}

/// A message that a room server injects for a stranger to a room of two is refused.
pub proof fn law_v1_injection_needs_a_place(
    s: State,
    request_id: u64,
    roomid: Text,
    clientid: Text,
    msg: Text,
    now: Instant,
)
    requires
        s.inv(),
        s.v2_rooms.actions.len() == 0,
        s.rooms.rooms.contains_key(roomid),
        !s.rooms.rooms[roomid].clients.contains_key(clientid),
        s.rooms.rooms[roomid].clients.dom().len() >= 2,
    ensures
        ({
            let t = s.handle_authority(
                AuthorityCommandView {
                    request_id,
                    operation: AuthorityOperationView::Inject { roomid, clientid, msg, now },
                },
            );
            t.rooms == s.rooms && only_answered(
                s,
                t,
                request_id,
                AuthorityResultView::Error { result: "Max room capacity reached"@ },
            )
        }),
{
    let (rooms, result) = s.rooms.send(now, roomid, clientid, msg);
    assert(rooms.rooms =~= s.rooms.rooms);
    lemma_answered(
        State { rooms, ..s },
        request_id,
        AuthorityResultView::Error { result: "Max room capacity reached"@ },
    );
}

/// A message of a registered V1 browser reaches its connected peer whole, in one frame, or
/// waits for it in order. If too many wait, nothing changes, and the driver is told.
pub proof fn law_v1_message_is_delivered(
    s: State,
    connection_id: u64,
    msg: WsClientMsgView,
    now: Instant,
    roomid: Text,
    clientid: Text,
    peerid: Text,
)
    requires
        s.inv(),
        s.sessions.contains_key(connection_id),
        s.sessions[connection_id] == (Session::RegisteredV1 { roomid, clientid }),
        is_alone(room_of(s.rooms, roomid), clientid) || is_peer(
            room_of(s.rooms, roomid),
            clientid,
            peerid,
        ),
        msg.cmd == "send"@,
        msg.msg.len() > 0,
    ensures
        ({
            let room = room_of(s.rooms, roomid);
            let (t, result) = s.handle_frame(connection_id, Ok(msg), now);
            let full = room.clients[clientid].msgs.len() >= MAX_QUEUED_MSG_COUNT;
            let reached = is_peer(room, clientid, peerid) && room.clients[peerid].registered;
            if full && !reached {
                t == s && result == Err::<(), Text>("Too many messages queued for the client"@)
            } else {
                &&& result is Ok
                &&& is_delivered(s, t, roomid, clientid, peerid, msg.msg)
                &&& t == (State { rooms: t.rooms, browser_outputs: t.browser_outputs, ..s })
            }
        }),
{
    reveal_strlit("register");
    reveal_strlit("send");
    assert("register"@.len() != "send"@.len());
    assert(s.connections.contains_key((roomid, clientid)));
    assert(s.rooms.is_connected(roomid, clientid));
    let message = MessageView { roomid, clientid, msg: msg.msg };
    tables::law_read_is_sent(s.rooms, now, message);
    lemma_sent_and_written(s, now, roomid, clientid, peerid, msg.msg);
}

/// Who cannot register a V1 browser: a stranger to a room of two, and a client that is
/// connected. It is told why and disconnected, and nothing else changes.
pub proof fn law_v1_registration_is_refused(
    s: State,
    connection_id: u64,
    msg: WsClientMsgView,
    now: Instant,
)
    requires
        s.inv(),
        msg.cmd == "register"@,
        msg.ver is None,
        msg.roomid.len() > 0,
        msg.clientid.len() > 0,
        !s.is_registered(connection_id),
        s.websocket_errors < u64::MAX,
        ({
            let clients = room_of(s.rooms, msg.roomid).clients;
            ||| !clients.contains_key(msg.clientid) && clients.dom().len() >= 2
            ||| clients.contains_key(msg.clientid) && clients[msg.clientid].registered
        }),
    ensures
        ({
            let clients = room_of(s.rooms, msg.roomid).clients;
            let (t, result) = s.handle_frame(connection_id, Ok(msg), now);
            let n = s.browser_outputs.len() as int;
            &&& result is Ok
            &&& t == (State {
                browser_outputs: t.browser_outputs,
                websocket_errors: (s.websocket_errors + 1) as u64,
                ..s
            })
            &&& t.browser_outputs.len() == n + 2
            &&& s.browser_outputs.is_prefix_of(t.browser_outputs)
            &&& is_frame(
                t.browser_outputs[n],
                connection_id,
                seq![
                    ("msg"@, Field::Text(Seq::empty())),
                    (
                        "error"@,
                        Field::Text(
                            if clients.contains_key(msg.clientid) {
                                "Duplicated registration"@
                            } else {
                                "Max room capacity reached"@
                            },
                        ),
                    ),
                ],
            )
            &&& t.browser_outputs[n + 1] == (BrowserOutputView::Close { connection_id })
        }),
{
    let roomid = msg.roomid;
    let room = room_of(s.rooms, roomid);
    lemma_room_of(s.rooms, roomid);
    rooms::law_registration_connects(room, now, msg.clientid, msg.clientid);
    let (rooms, result) = s.rooms.register(now, roomid, msg.clientid);
    let error = result->Err_0;
    wire::law_relay_frame_carries_the_payload(error, error);
    if !s.rooms.rooms.contains_key(roomid) {
        assert(room.clients.dom() =~= Set::empty());
    }
    assert(rooms.rooms =~= s.rooms.rooms);
    let t = s.handle_frame(connection_id, Ok(msg), now).0;
    assert(t.browser_outputs[s.browser_outputs.len() as int] == (BrowserOutputView::Text {
        connection_id,
        text: messages::wire_err(error),
    }));
}

/// Who can register a V1 browser, and what it gets: a client that is there and not
/// connected, or a new one where there is a place. From then on the connection belongs to
/// the client, which gets a frame for each message that its peer had queued, in order and
/// whole, and nothing else.
#[verifier::rlimit(40)]
pub proof fn law_v1_registration_is_answered(
    s: State,
    connection_id: u64,
    msg: WsClientMsgView,
    now: Instant,
    peerid: Text,
)
    requires
        s.inv(),
        msg.cmd == "register"@,
        msg.ver is None,
        msg.roomid.len() > 0,
        msg.clientid.len() > 0,
        !s.is_registered(connection_id),
        s.total_websocket_connections < u64::MAX,
        ({
            let clients = room_of(s.rooms, msg.roomid).clients;
            ||| !clients.contains_key(msg.clientid) && clients.dom().len() < 2
            ||| clients.contains_key(msg.clientid) && !clients[msg.clientid].registered
        }),
    ensures
        ({
            let room = room_of(s.rooms, msg.roomid);
            let (t, result) = s.handle_frame(connection_id, Ok(msg), now);
            let after = t.rooms.rooms[msg.roomid].clients;
            let n = s.browser_outputs.len();
            &&& result is Ok
            &&& only_room(s.rooms, t.rooms, msg.roomid)
            &&& t == (State {
                rooms: t.rooms,
                browser_outputs: t.browser_outputs,
                sessions: s.sessions.insert(
                    connection_id,
                    Session::RegisteredV1 { roomid: msg.roomid, clientid: msg.clientid },
                ),
                connections: s.connections.insert((msg.roomid, msg.clientid), connection_id),
                total_websocket_connections: (s.total_websocket_connections + 1) as u64,
                ..s
            })
            &&& s.browser_outputs.is_prefix_of(t.browser_outputs)
            &&& after.dom() == room.clients.dom().insert(msg.clientid)
            &&& after[msg.clientid].registered
            &&& after[msg.clientid].timeout is None
            &&& room.clients.contains_key(msg.clientid) ==> after[msg.clientid] == (ClientView {
                registered: true,
                timeout: None,
                ..room.clients[msg.clientid]
            })
            &&& is_alone(room, msg.clientid) ==> t.browser_outputs == s.browser_outputs
            &&& is_peer(room, msg.clientid, peerid) ==> {
                let queued = room.clients[peerid].msgs;
                &&& after[peerid] == (ClientView { msgs: Seq::empty(), ..room.clients[peerid] })
                &&& t.browser_outputs.len() == n + queued.len()
                &&& forall|i: int|
                    0 <= i < queued.len() ==> is_frame(
                        #[trigger] t.browser_outputs[n + i],
                        connection_id,
                        seq![
                            ("msg"@, Field::Text(queued[i])),
                            ("error"@, Field::Text(Seq::empty())),
                        ],
                    )
            }
        }),
{
    let roomid = msg.roomid;
    let clientid = msg.clientid;
    let room = room_of(s.rooms, roomid);
    lemma_room_of(s.rooms, roomid);
    rooms::law_registration_connects(room, now, clientid, peerid);
    let (rooms, result) = s.rooms.register(now, roomid, clientid);
    let after = rooms.rooms[roomid];
    tables::law_clients_keep_inv(s.rooms, now, roomid, clientid, false, Seq::empty());
    assert forall|c: Text| #[trigger] room.clients.contains_key(c) implies room.clients[
        c
    ].writes.len() == 0 by {
        assert(s.rooms.rooms[roomid].clients.contains_key(c));
    }
    let here = State {
        rooms,
        sessions: s.sessions.insert(
            connection_id,
            Session::RegisteredV1 { roomid, clientid },
        ),
        connections: s.connections.insert((roomid, clientid), connection_id),
        total_websocket_connections: (s.total_websocket_connections + 1) as u64,
        ..s
    };
    let other = if is_alone(room, clientid) {
        clientid
    } else {
        choose|c: Text| #[trigger] room.clients.contains_key(c) && c != clientid
    };
    lemma_peer(room, clientid, other);
    rooms::law_registration_connects(room, now, clientid, other);
    assert forall|r: Text, c: Text|
        rooms.rooms.contains_key(r) && !(r == roomid && c == clientid)
            && #[trigger] rooms.rooms[r].clients.contains_key(
            c,
        ) implies rooms.rooms[r].clients[c].writes.len() == 0 by {
        if r == roomid {
            assert(c == other);
        } else {
            assert(s.rooms.rooms[r].clients.contains_key(c));
        }
    }
    assert(after.clients.contains_key(clientid));
    let writes = after.clients[clientid].writes;
    if is_peer(room, clientid, other) {
        assert forall|i: int| 0 <= i < writes.len() implies (#[trigger] writes[i]).roomid
            == roomid && writes[i].clientid == clientid by {
            assert(writes[i].roomid == room.id);
        }
    } else {
        assert(writes.len() == 0);
    }
    lemma_writes_go_out(here, roomid, clientid);
    let t = here.with_room_writes_drained();
    assert(s.handle_frame(connection_id, Ok(msg), now) == (t, Ok::<(), Text>(())));
    assert(t == (State { rooms: t.rooms, browser_outputs: t.browser_outputs, ..here }));
    assert(t.rooms.rooms[roomid].clients[clientid] == (ClientView {
        writes: Seq::empty(),
        ..after.clients[clientid]
    }));
    assert(t.rooms.rooms[roomid].clients.dom() =~= room.clients.dom().insert(clientid)) by {
        assert(t.rooms.rooms[roomid].clients.dom() == after.clients.dom());
        assert forall|c: Text| after.clients.dom().contains(c)
            <==> room.clients.dom().insert(clientid).contains(c) by {
            assert(after.clients.contains_key(c) <==> room.clients.contains_key(c) || c
                == clientid);
        }
    }
    if room.clients.contains_key(clientid) {
        assert(t.rooms.rooms[roomid].clients[clientid] =~= (ClientView {
            registered: true,
            timeout: None,
            ..room.clients[clientid]
        }));
    }
    if is_alone(room, clientid) {
        assert(t.browser_outputs =~= s.browser_outputs);
    }
    if is_peer(room, clientid, peerid) {
        assert(after.clients.contains_key(peerid));
        assert(t.rooms.rooms[roomid].clients[peerid] =~= (ClientView {
            msgs: Seq::empty(),
            ..room.clients[peerid]
        }));
        let n = s.browser_outputs.len();
        let queued = room.clients[peerid].msgs;
        assert forall|i: int| 0 <= i < queued.len() implies is_frame(
            #[trigger] t.browser_outputs[n + i],
            connection_id,
            seq![("msg"@, Field::Text(queued[i])), ("error"@, Field::Text(Seq::empty()))],
        ) by {
            assert(writes[i].msg == queued[i]);
        }
    }
    assert forall|r: Text|
        #![trigger t.rooms.rooms.contains_key(r)]
        #![trigger s.rooms.rooms.contains_key(r)]
        r != roomid implies t.rooms.rooms.contains_key(r) == s.rooms.rooms.contains_key(r) && (
    s.rooms.rooms.contains_key(r) ==> t.rooms.rooms[r] == s.rooms.rooms[r]) by {
        assert(t.rooms.rooms.dom().contains(r) <==> rooms.rooms.dom().contains(r));
        if s.rooms.rooms.contains_key(r) {
            assert(rooms.rooms.contains_key(r));
        }
    }
    assert(only_room(s.rooms, t.rooms, roomid));
}

/// In a room with a place for a client there is nobody else but its peer.
proof fn lemma_peer(room: RoomView, clientid: Text, other: Text)
    requires
        room.inv(),
        room.can_hold(clientid),
        is_alone(room, clientid) && other == clientid || room.clients.contains_key(other) && other
            != clientid,
    ensures
        other != clientid ==> is_peer(room, clientid, other),
        other == clientid ==> is_alone(room, clientid),
{
    if other != clientid {
        let dom = room.clients.dom();
        assert(dom.contains(other));
        assert forall|c: Text| #[trigger] room.clients.contains_key(c) implies c == clientid || c
            == other by {
            assert(dom.contains(c));
            if c != clientid && c != other {
                if room.clients.contains_key(clientid) {
                    assert(dom.contains(clientid));
                    assert(set![clientid, other, c].subset_of(dom));
                    vstd::set_lib::lemma_len_subset(set![clientid, other, c], dom);
                    assert(set![clientid, other, c].len() == 3);
                } else {
                    assert(set![other, c].subset_of(dom));
                    vstd::set_lib::lemma_len_subset(set![other, c], dom);
                    assert(set![other, c].len() == 2);
                }
            }
        }
    }
}

/// A V1 browser that is gone leaves its client in the room, with what it has queued and
/// with the register timeout to come back. Nobody hears of it.
pub proof fn law_v1_disconnect_is_waited_out(
    s: State,
    connection_id: u64,
    now: Instant,
    roomid: Text,
    clientid: Text,
)
    requires
        s.inv(),
        s.sessions.contains_key(connection_id),
        s.sessions[connection_id] == (Session::RegisteredV1 { roomid, clientid }),
    ensures
        ({
            let clients = s.rooms.rooms[roomid].clients;
            let (t, result) = s.handle_read(BrowserInputView::Disconnected { connection_id, now });
            &&& result is Ok
            &&& s.rooms.rooms.contains_key(roomid)
            &&& clients.contains_key(clientid)
            &&& only_room(s.rooms, t.rooms, roomid)
            &&& t == (State {
                rooms: t.rooms,
                sessions: s.sessions.remove(connection_id),
                connections: s.connections.remove((roomid, clientid)),
                ..s
            })
            &&& t.rooms.rooms.contains_key(roomid)
            &&& t.rooms.rooms[roomid] == (RoomView {
                clients: clients.insert(
                    clientid,
                    ClientView {
                        registered: false,
                        timeout: Some(
                            rooms::at_most(now, s.rooms.rooms[roomid].register_timeout),
                        ),
                        ..clients[clientid]
                    },
                ),
                ..s.rooms.rooms[roomid]
            })
        }),
{
    assert(s.connections.contains_key((roomid, clientid)));
    assert(s.rooms.is_connected(roomid, clientid));
    rooms::law_lost_connection_is_waited_for(s.rooms.rooms[roomid], now, clientid);
}

/// Time takes from every V1 room exactly the clients that did not connect in time, and
/// closes the rooms in which nobody is left. Whoever is left behind by another offers. No
/// V1 browser hears of it, and no connection ends.
pub proof fn law_v1_time_takes_the_late(s: State, now: Instant, roomid: Text, clientid: Text)
    requires
        s.inv(),
    ensures
        ({
            let t = s.handle_timeout(now);
            let clients = s.rooms.rooms[roomid].clients;
            let after = t.rooms.rooms[roomid].clients;
            &&& t.connections == s.connections
            &&& t.rooms.register_timeout == s.rooms.register_timeout
            &&& t.rooms.rooms.contains_key(roomid) ==> s.rooms.rooms.contains_key(roomid)
                && after.dom().len() > 0
            &&& s.rooms.rooms.contains_key(roomid) && clients.contains_key(clientid) ==> (
            t.rooms.rooms.contains_key(roomid) && after.contains_key(clientid) <==> !is_late(
                clients[clientid],
                now,
            ))
            &&& t.rooms.rooms.contains_key(roomid) && after.contains_key(clientid) ==> {
                &&& clients.contains_key(clientid)
                &&& after[clientid] == (ClientView {
                    is_initiator: clients[clientid].is_initiator || exists|c: Text| #[trigger]
                        clients.contains_key(c) && is_late(clients[c], now),
                    ..clients[clientid]
                })
            }
        }),
{
    let (v2_rooms, promotions) = s.v2_rooms.handle_timeout(now);
    let timed = State { rooms: s.rooms.handle_timeout(now), v2_rooms, ..s };
    super::lemma_promotions(timed, promotions);
    super::lemma_actions_drained(timed.with_promotions(promotions));
    let t = s.handle_timeout(now);
    assert(t.rooms == s.rooms.handle_timeout(now));
    if s.rooms.rooms.contains_key(roomid) {
        let room = s.rooms.rooms[roomid];
        rooms::law_time_takes_the_late(room, now);
        let after = room.handle_timeout(now);
        crate::room::laws::law_timeout_keeps_inv(room, now);
        if after.clients.contains_key(clientid) {
            assert(after.clients.dom().contains(clientid));
            if after.clients.dom().len() == 0 {
                assert(after.clients.dom() =~= Set::empty());
            }
            assert(room.clients.contains_key(clientid));
            if !(exists|c: Text| #[trigger]
                room.clients.contains_key(c) && is_late(room.clients[c], now)) {
                assert(after == room);
            }
        }
    }
}

} // verus!
