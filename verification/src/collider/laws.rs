//! What the signaling authority promises.

use super::model::{Session, State};
use super::{
    AuthorityCommandView, AuthorityOperationView, AuthorityResponseView, AuthorityResultView,
    BrowserInputView, BrowserOutputView,
};
use crate::messages;
use crate::messages::{MessageView, WsClientMsgView};
use crate::room_table::laws as tables;
use crate::room_table::TableView;
use crate::seqs::Text;
use crate::sfu;
use crate::text;
use crate::time::{Duration, Instant};
use crate::v2;
use crate::v2::{ActionView, AdmissionResultView, Promotion, RemovalResult, RoomMode};
use vstd::prelude::*;

pub mod actions;
pub mod counts;
pub mod events;
pub mod moves;
pub mod news;
pub mod v1;
pub mod v2rooms;

verus! {

// What every input keeps

impl TableView {
    /// Whether a client is in a room with a connection.
    pub open spec fn is_connected(self, room_id: Text, client_id: Text) -> bool {
        self.rooms.contains_key(room_id) && self.rooms[room_id].is_connected(client_id)
    }
}

impl State {
    /// A connection that a client is reached by is known as the connection of that
    /// client. For V1 clients the converse holds too, and exactly the connected clients
    /// are reached.
    pub open spec fn links_inv(self) -> bool {
        &&& forall|k: (Text, Text)| #[trigger]
            self.connections.contains_key(k) ==> self.sessions.contains_key(self.connections[k])
                && self.sessions[self.connections[k]] == (Session::RegisteredV1 {
                roomid: k.0,
                clientid: k.1,
            })
        &&& forall|id: u64| #[trigger]
            self.sessions.contains_key(id) ==> (self.sessions[id] matches Session::RegisteredV1 {
                roomid,
                clientid,
            } ==> self.connections.contains_key((roomid, clientid)) && self.connections[(
                roomid,
                clientid,
            )] == id)
        &&& forall|r: Text, c: Text|
            #![trigger self.connections.contains_key((r, c))]
            #![trigger self.rooms.is_connected(r, c)]
            self.connections.contains_key((r, c)) <==> self.rooms.is_connected(r, c)
        &&& forall|k: (u64, u64)| #[trigger]
            self.v2_connections.contains_key(k) ==> self.sessions.contains_key(
                self.v2_connections[k],
            ) && self.sessions[self.v2_connections[k]] == (Session::RegisteredV2 {
                room_id: k.0,
                client_id: k.1,
            })
    }

    /// The rooms are in order, nothing waits to be relayed or written to V1 clients,
    /// and connections belong to their clients.
    pub open spec fn inv(self) -> bool {
        &&& self.rooms.inv()
        &&& self.rooms.is_relayed()
        &&& self.rooms.is_written()
        &&& self.v2_rooms.inv()
        &&& self.links_inv()
    }

    /// Whether a new connection comes under a new number.
    pub open spec fn is_fresh(self, input: BrowserInputView) -> bool {
        input matches BrowserInputView::Connected { connection_id } ==> !self.sessions.contains_key(
            connection_id,
        )
    }

    /// The other state can come after this one: what was to be polled is still the
    /// beginning of what is to be polled, and no counter has fallen.
    pub open spec fn leads_to(self, later: State) -> bool {
        &&& self.browser_outputs.is_prefix_of(later.browser_outputs)
        &&& self.authority_responses.is_prefix_of(later.authority_responses)
        &&& self.total_websocket_connections <= later.total_websocket_connections
        &&& self.websocket_errors <= later.websocket_errors
    }
}

/// A new authority is in order.
pub proof fn law_new_authority_has_inv(register_timeout: Duration)
    ensures
        State::initial(register_timeout).inv(),
{
    v2::invariants::law_start_has_inv(
        State::initial(register_timeout).v2_rooms,
        register_timeout,
    );
}

proof fn lemma_transitive(a: State, b: State, c: State)
    requires
        a.leads_to(b),
        b.leads_to(c),
    ensures
        a.leads_to(c),
{
}

/// Performing actions concerns outputs, answers and V2 connections only.
proof fn lemma_performed(s: State, actions: Seq<ActionView>)
    ensures
        s.performed(actions).rooms == s.rooms,
        s.performed(actions).v2_rooms == s.v2_rooms,
        s.performed(actions).connections == s.connections,
        s.leads_to(s.performed(actions)),
        s.links_inv() ==> s.performed(actions).links_inv(),
    decreases actions.len(),
{
    if actions.len() > 0 {
        lemma_performed(s, actions.drop_last());
        let t = s.performed(actions.drop_last());
        let u = t.after_action(actions.last());
        assert(t.leads_to(u));
        lemma_transitive(s, t, u);
    }
}

proof fn lemma_actions_drained(s: State)
    ensures
        s.with_actions_drained().rooms == s.rooms,
        s.with_actions_drained().v2_rooms == (v2::model::Table {
            actions: Seq::empty(),
            ..s.v2_rooms
        }),
        s.with_actions_drained().connections == s.connections,
        s.leads_to(s.with_actions_drained()),
        s.links_inv() ==> s.with_actions_drained().links_inv(),
        s.v2_rooms.inv() ==> s.with_actions_drained().v2_rooms.inv(),
        s.v2_rooms.actions.len() == 0 ==> s.with_actions_drained() == s,
{
    let t = State {
        v2_rooms: v2::model::Table { actions: Seq::empty(), ..s.v2_rooms },
        ..s
    };
    lemma_performed(t, s.v2_rooms.actions);
    if s.v2_rooms.actions.len() == 0 {
        assert(s.v2_rooms.actions =~= Seq::empty());
    }
}

proof fn lemma_promotions(s: State, promotions: Seq<Promotion>)
    ensures
        s.with_promotions(promotions) == (State {
            browser_outputs: s.with_promotions(promotions).browser_outputs,
            ..s
        }),
        s.leads_to(s.with_promotions(promotions)),
    decreases promotions.len(),
{
    if promotions.len() > 0 {
        lemma_promotions(s, promotions.drop_last());
    }
}

/// Which clients are connected after what a client does.
proof fn lemma_connected(
    t: TableView,
    now: Instant,
    room_id: Text,
    client_id: Text,
    is_loopback: bool,
    msg: Text,
    r: Text,
    c: Text,
)
    requires
        t.inv(),
    ensures
        t.join(now, room_id, client_id, is_loopback).0.is_connected(r, c) == t.is_connected(r, c),
        t.register(now, room_id, client_id).0.is_connected(r, c) == (t.is_connected(r, c)
            || t.register(now, room_id, client_id).1 is Ok && r == room_id && c == client_id),
        t.register(now, room_id, client_id).1 is Ok ==> !t.is_connected(room_id, client_id),
        t.send(now, room_id, client_id, msg).0.is_connected(r, c) == t.is_connected(r, c),
        t.deregistered(now, room_id, client_id).is_connected(r, c) == (t.is_connected(r, c) && !(r
            == room_id && c == client_id)),
        t.without_client(room_id, client_id).is_connected(r, c) == (t.is_connected(r, c) && !(r
            == room_id && c == client_id)),
        t.handle_timeout(now).is_connected(r, c) == t.is_connected(r, c),
        t.without_writes().is_connected(r, c) == t.is_connected(r, c),
{
    let room = t.room(room_id);
    tables::lemma_room(t, room_id);
    let here = room.joined(now, client_id);
    if room.can_hold(client_id) {
        crate::room::laws::lemma_joined(room, now, client_id);
        if here.others(client_id).len() > 0 {
            crate::room::laws::lemma_first_other(here, client_id);
        }
        let connected = here.with_client(client_id, here.clients[client_id].connected());
        assert(connected.clients.dom() =~= here.clients.dom());
        if connected.others(client_id).len() > 0 {
            crate::room::laws::lemma_first_other(connected, client_id);
        }
    }
    let left = room.without(client_id);
    if left.is_empty() && t.rooms.contains_key(room_id) {
        crate::room::laws::law_removal_keeps_inv(room, client_id);
        assert(!left.clients.dom().contains(c));
    }
    if t.is_connected(r, c) {
        crate::room::laws::law_only_late_clients_are_removed(t.rooms[r], now, c);
        crate::room::laws::law_timeout_keeps_inv(t.rooms[r], now);
        assert(t.rooms[r].handle_timeout(now).clients.dom().contains(c));
    }
}

/// What a browser sends keeps everything in order, as long as every new connection
/// comes under a new number.
pub proof fn law_browsers_keep_inv(s: State, input: BrowserInputView)
    requires
        s.inv(),
        s.is_fresh(input),
    ensures
        s.handle_read(input).0.inv(),
        s.leads_to(s.handle_read(input).0),
{
    match input {
        BrowserInputView::Connected { connection_id } => {},
        BrowserInputView::Text { connection_id, text, now } => {
            law_frame_keeps_inv(s, connection_id, WsClientMsgView::read(text), now);
        },
        BrowserInputView::Disconnected { connection_id, now } => {
            lemma_disconnect(s, connection_id, now);
        },
    }
}

/// A frame keeps everything in order, whatever is in it.
pub proof fn law_frame_keeps_inv(
    s: State,
    connection_id: u64,
    frame: Result<WsClientMsgView, Text>,
    now: Instant,
)
    requires
        s.inv(),
    ensures
        s.handle_frame(connection_id, frame, now).0.inv(),
        s.leads_to(s.handle_frame(connection_id, frame, now).0),
{
    if frame is Ok {
        lemma_register_v1(s, connection_id, frame->Ok_0, now);
        lemma_register_v2(s, connection_id, frame->Ok_0);
        lemma_send(s, connection_id, frame->Ok_0, now);
    }
}

proof fn lemma_register_v1(s: State, connection_id: u64, msg: WsClientMsgView, now: Instant)
    requires
        s.inv(),
    ensures
        s.register_v1(connection_id, msg, now).inv(),
        s.leads_to(s.register_v1(connection_id, msg, now)),
{
    let r = msg.roomid;
    let c = msg.clientid;
    let (rooms, result) = s.rooms.register(now, r, c);
    let t = s.register_v1(connection_id, msg, now);
    tables::law_clients_keep_inv(s.rooms, now, r, c, false, Seq::empty());
    tables::lemma_clients_keep_relayed(s.rooms, now, r, c, false, Seq::empty());
    tables::lemma_clients_keep_written(s.rooms, now, r, c, false, Seq::empty());
    tables::lemma_without_writes(rooms);
    tables::lemma_clients_keep_relayed(rooms, now, r, c, false, Seq::empty());
    assert forall|x: Text, y: Text| #[trigger] t.rooms.is_connected(x, y) <==> (
    s.rooms.is_connected(x, y) || t.rooms != s.rooms && result is Ok && x == r && y == c) by {
        lemma_connected(s.rooms, now, r, c, false, Seq::empty(), x, y);
        lemma_connected(rooms, now, r, c, false, Seq::empty(), x, y);
    }
    lemma_connected(s.rooms, now, r, c, false, Seq::empty(), r, c);
    lemma_connected(rooms, now, r, c, false, Seq::empty(), r, c);
    if result is Ok {
        assert(!s.connections.contains_key((r, c)));
    }
}

proof fn lemma_register_v2(s: State, connection_id: u64, msg: WsClientMsgView)
    requires
        s.inv(),
    ensures
        s.register_v2(connection_id, msg).inv(),
        s.leads_to(s.register_v2(connection_id, msg)),
{
    let room_id = text::canonical(msg.roomid);
    let client_id = text::canonical(msg.clientid);
    if room_id is Some && client_id is Some {
        v2::invariants::law_register_keeps_inv(s.v2_rooms, room_id->0, client_id->0, msg.token);
    }
}

proof fn lemma_send(s: State, connection_id: u64, msg: WsClientMsgView, now: Instant)
    requires
        s.inv(),
    ensures
        s.send(connection_id, msg, now).0.inv(),
        s.leads_to(s.send(connection_id, msg, now).0),
{
    if s.sessions.contains_key(connection_id) && msg.msg.len() > 0 {
        match s.sessions[connection_id] {
            Session::RegisteredV1 { roomid, clientid } => {
                lemma_send_v1(s, MessageView { roomid, clientid, msg: msg.msg }, now);
            },
            Session::RegisteredV2 { room_id, client_id } => {
                let epoch = super::model::canonical_epoch(msg.epoch);
                if epoch is Some {
                    let (v2_rooms, result) = s.v2_rooms.send(
                        room_id,
                        client_id,
                        epoch->0,
                        msg.msg,
                    );
                    v2::invariants::law_send_keeps_inv(
                        s.v2_rooms,
                        room_id,
                        client_id,
                        epoch->0,
                        msg.msg,
                    );
                    let t = State { v2_rooms, ..s };
                    lemma_actions_drained(t);
                    match result {
                        Ok(v2::SendResultView::P2p(Some(delivery))) => {
                            assert(t.with_delivery(delivery).links_inv());
                            lemma_actions_drained(t.with_delivery(delivery));
                        },
                        _ => {},
                    }
                }
            },
            Session::Connected => {},
        }
    }
}

proof fn lemma_send_v1(s: State, message: MessageView, now: Instant)
    requires
        s.inv(),
        s.rooms.is_connected(message.roomid, message.clientid),
    ensures
        s.send_v1(message, now).0.inv(),
        s.leads_to(s.send_v1(message, now).0),
{
    let r = message.roomid;
    let c = message.clientid;
    tables::law_read_is_sent(s.rooms, now, message);
    lemma_sent(s, now, r, c, message.msg);
}

/// A message, once it went to its room and whatever came of it was written, leaves
/// everything in order.
proof fn lemma_sent(s: State, now: Instant, r: Text, c: Text, msg: Text)
    requires
        s.inv(),
    ensures
        ({
            let (rooms, result) = s.rooms.send(now, r, c, msg);
            let t = State { rooms, ..s };
            &&& result is Ok ==> t.with_room_writes_drained().inv()
            &&& result is Ok ==> s.leads_to(t.with_room_writes_drained())
            &&& result is Err ==> t.inv()
        }),
{
    let (rooms, result) = s.rooms.send(now, r, c, msg);
    let t = State { rooms, ..s };
    tables::law_clients_keep_inv(s.rooms, now, r, c, false, msg);
    tables::lemma_clients_keep_relayed(s.rooms, now, r, c, false, msg);
    tables::lemma_clients_keep_written(s.rooms, now, r, c, false, msg);
    tables::lemma_without_writes(rooms);
    tables::lemma_clients_keep_relayed(rooms, now, r, c, false, msg);
    let u = t.with_room_writes_drained();
    assert forall|x: Text, y: Text| #[trigger] t.rooms.is_connected(x, y) == s.rooms.is_connected(
        x,
        y,
    ) by {
        lemma_connected(s.rooms, now, r, c, false, msg, x, y);
    }
    assert forall|x: Text, y: Text| #[trigger] u.rooms.is_connected(x, y) == s.rooms.is_connected(
        x,
        y,
    ) by {
        lemma_connected(s.rooms, now, r, c, false, msg, x, y);
        lemma_connected(rooms, now, r, c, false, msg, x, y);
    }
}

proof fn lemma_disconnect(s: State, connection_id: u64, now: Instant)
    requires
        s.inv(),
    ensures
        s.disconnect(connection_id, now).inv(),
        s.leads_to(s.disconnect(connection_id, now)),
{
    if s.sessions.contains_key(connection_id) {
        let t = State { sessions: s.sessions.remove(connection_id), ..s };
        match s.sessions[connection_id] {
            Session::RegisteredV1 { roomid, clientid } => {
                let u = s.disconnect(connection_id, now);
                tables::law_clients_keep_inv(s.rooms, now, roomid, clientid, false, Seq::empty());
                tables::lemma_clients_keep_relayed(
                    s.rooms,
                    now,
                    roomid,
                    clientid,
                    false,
                    Seq::empty(),
                );
                tables::lemma_clients_keep_written(
                    s.rooms,
                    now,
                    roomid,
                    clientid,
                    false,
                    Seq::empty(),
                );
                assert forall|x: Text, y: Text| #[trigger] u.rooms.is_connected(x, y) <==> (
                s.rooms.is_connected(x, y) && !(x == roomid && y == clientid)) by {
                    lemma_connected(s.rooms, now, roomid, clientid, false, Seq::empty(), x, y);
                }
            },
            Session::RegisteredV2 { room_id, client_id } => {
                v2::invariants::law_deregister_keeps_inv(s.v2_rooms, now, room_id, client_id);
                let u = State {
                    v2_connections: s.v2_connections.remove((room_id, client_id)),
                    v2_rooms: s.v2_rooms.deregister(now, room_id, client_id),
                    ..t
                };
                if s.v2_connections.contains_key((room_id, client_id)) && s.v2_connections[(
                    room_id,
                    client_id,
                )] == connection_id {
                    assert(u.links_inv());
                }
                lemma_actions_drained(u);
            },
            Session::Connected => {},
        }
    }
}

/// What a room server asks for keeps everything in order.
pub proof fn law_room_servers_keep_inv(s: State, command: AuthorityCommandView)
    requires
        s.inv(),
    ensures
        s.handle_authority(command).inv(),
        s.leads_to(s.handle_authority(command)),
{
    let request_id = command.request_id;
    match command.operation {
        AuthorityOperationView::Admit { roomid, clientid, is_loopback, now } => {
            let (rooms, result) = s.rooms.join(now, roomid, clientid, is_loopback);
            let t = State { rooms, ..s };
            tables::law_clients_keep_inv(s.rooms, now, roomid, clientid, is_loopback, Seq::empty());
            tables::lemma_clients_keep_relayed(
                s.rooms,
                now,
                roomid,
                clientid,
                is_loopback,
                Seq::empty(),
            );
            tables::lemma_clients_keep_written(
                s.rooms,
                now,
                roomid,
                clientid,
                is_loopback,
                Seq::empty(),
            );
            assert forall|x: Text, y: Text| #[trigger]
                t.rooms.is_connected(x, y) == s.rooms.is_connected(x, y) by {
                lemma_connected(s.rooms, now, roomid, clientid, is_loopback, Seq::empty(), x, y);
            }
            lemma_answered(
                t,
                request_id,
                match result {
                    Ok((is_initiator, messages)) => AuthorityResultView::Admitted {
                        is_initiator,
                        messages,
                    },
                    Err(result) => AuthorityResultView::Error { result },
                },
            );
        },
        AuthorityOperationView::Remove { roomid, clientid } => {
            let now = Instant { nanos: 0 };
            let t = State {
                rooms: s.rooms.without_client(roomid, clientid),
                ..s.with_client_closed(roomid, clientid)
            };
            tables::law_clients_keep_inv(s.rooms, now, roomid, clientid, false, Seq::empty());
            tables::lemma_clients_keep_relayed(s.rooms, now, roomid, clientid, false, Seq::empty());
            tables::lemma_clients_keep_written(s.rooms, now, roomid, clientid, false, Seq::empty());
            assert forall|x: Text, y: Text| #[trigger] t.rooms.is_connected(x, y) <==> (
            s.rooms.is_connected(x, y) && !(x == roomid && y == clientid)) by {
                lemma_connected(s.rooms, now, roomid, clientid, false, Seq::empty(), x, y);
            }
            lemma_answered(t, request_id, AuthorityResultView::Removed);
        },
        AuthorityOperationView::Occupancy { roomid } => {
            lemma_answered(
                s,
                request_id,
                AuthorityResultView::Occupancy { count: s.rooms.occupancy(roomid) },
            );
        },
        AuthorityOperationView::Inject { roomid, clientid, msg, now } => {
            let (rooms, result) = s.rooms.send(now, roomid, clientid, msg);
            let t = State { rooms, ..s };
            lemma_sent(s, now, roomid, clientid, msg);
            match result {
                Ok(_) => {
                    lemma_answered(
                        t.with_room_writes_drained(),
                        request_id,
                        AuthorityResultView::Injected,
                    );
                },
                Err(result) => {
                    lemma_answered(t, request_id, AuthorityResultView::Error { result });
                },
            }
        },
        AuthorityOperationView::AdmitV2 { room_id, client_id, admission_token, now } => {
            let (v2_rooms, result) = s.v2_rooms.admit_client(
                request_id,
                now,
                room_id,
                client_id,
                admission_token,
            );
            v2::invariants::law_admit_client_keeps_inv(
                s.v2_rooms,
                request_id,
                now,
                room_id,
                client_id,
                admission_token,
            );
            let t = State { v2_rooms, ..s };
            match result {
                Ok(AdmissionResultView::Complete(admission)) => {
                    lemma_answered(t, request_id, AuthorityResultView::admitted_v2(admission));
                },
                Ok(AdmissionResultView::Pending) => {
                    lemma_actions_drained(t);
                },
                Err(result) => {
                    lemma_answered(t, request_id, AuthorityResultView::Error { result });
                },
            }
        },
        AuthorityOperationView::RemoveV2 { room_id, client_id, admission_token } => {
            let (v2_rooms, result) = s.v2_rooms.remove(
                request_id,
                room_id,
                client_id,
                admission_token,
            );
            v2::invariants::law_remove_keeps_inv(
                s.v2_rooms,
                request_id,
                room_id,
                client_id,
                admission_token,
            );
            let t = State { v2_rooms, ..s };
            match result {
                Ok(RemovalResult::Complete(promotion)) => {
                    let closed = t.with_v2_client_closed(room_id, client_id);
                    assert(closed.links_inv());
                    let told = match promotion {
                        Some(promotion) => closed.with_promotion(promotion),
                        None => closed,
                    };
                    assert(told.links_inv());
                    lemma_answered(told, request_id, AuthorityResultView::RemovedV2);
                },
                Ok(RemovalResult::Pending) => {
                    lemma_actions_drained(t);
                },
                Err(result) => {
                    lemma_answered(t, request_id, AuthorityResultView::Error { result });
                },
            }
        },
        AuthorityOperationView::OccupancyV2 { room_id } => {
            lemma_answered(
                s,
                request_id,
                AuthorityResultView::OccupancyV2 {
                    count: s.v2_rooms.occupancy(room_id).0,
                    mode: s.v2_rooms.occupancy(room_id).1,
                },
            );
        },
        AuthorityOperationView::Status => {
            lemma_answered(s, request_id, AuthorityResultView::Status(s.status()));
        },
    }
}

proof fn lemma_answered(s: State, request_id: u64, result: AuthorityResultView)
    requires
        s.inv(),
    ensures
        s.answered(request_id, result).inv(),
        s.leads_to(s.answered(request_id, result)),
{
    let t = s.with_response(request_id, result);
    assert(t.links_inv());
    lemma_actions_drained(t);
}

/// What a worker sends keeps everything in order.
pub proof fn law_workers_keep_inv(s: State, input: sfu::InputView)
    requires
        s.inv(),
    ensures
        s.handle_sfu_input(input).0.inv(),
        s.leads_to(s.handle_sfu_input(input).0),
{
    v2::invariants::law_sfu_input_keeps_inv(s.v2_rooms, input);
    let t = State { v2_rooms: s.v2_rooms.handle_sfu_input(input).0, ..s };
    lemma_actions_drained(t);
}

/// Time keeps everything in order.
pub proof fn law_time_keeps_inv(s: State, now: Instant)
    requires
        s.inv(),
    ensures
        s.handle_timeout(now).inv(),
        s.leads_to(s.handle_timeout(now)),
{
    let (v2_rooms, promotions) = s.v2_rooms.handle_timeout(now);
    v2::invariants::law_timeout_keeps_inv(s.v2_rooms, now);
    tables::law_timeout_keeps_inv(s.rooms, now);
    tables::lemma_clients_keep_relayed(s.rooms, now, Seq::empty(), Seq::empty(), false, Seq::empty());
    tables::lemma_clients_keep_written(s.rooms, now, Seq::empty(), Seq::empty(), false, Seq::empty());
    let t = State { rooms: s.rooms.handle_timeout(now), v2_rooms, ..s };
    assert forall|x: Text, y: Text| #[trigger] t.rooms.is_connected(x, y) == s.rooms.is_connected(
        x,
        y,
    ) by {
        lemma_connected(s.rooms, now, Seq::empty(), Seq::empty(), false, Seq::empty(), x, y);
    }
    lemma_promotions(t, promotions);
    let u = t.with_promotions(promotions);
    assert(u.links_inv());
    lemma_actions_drained(u);
}

/// Closing leaves everything in order and ends every connection.
pub proof fn law_close_keeps_inv(s: State)
    requires
        s.inv(),
    ensures
        s.closed().inv(),
        s.leads_to(s.closed()),
        s.closed().sessions.dom() == Set::<u64>::empty(),
{
    let t = s.closed();
    assert(t.rooms.inv());
    assert(t.v2_rooms.unacknowledged_commands.dom() =~= t.v2_rooms.pending_commands.dom());
    assert(t.v2_rooms.command_workers.dom() =~= t.v2_rooms.pending_commands.dom());
    assert(t.sessions.dom() =~= Set::<u64>::empty());
}

// Protocol errors

/// What a browser with a protocol error gets: a frame that says so, and the end of its
/// connection.
pub open spec fn error_outputs(connection_id: u64, error: Text) -> Seq<BrowserOutputView> {
    seq![
        BrowserOutputView::Text { connection_id, text: messages::wire_err(error) },
        BrowserOutputView::Close { connection_id },
    ]
}

/// Only an error was reported: no room, session or connection has changed.
pub open spec fn only_failed(s: State, after: State, connection_id: u64, error: Text) -> bool {
    after == (State {
        browser_outputs: s.browser_outputs + error_outputs(connection_id, error),
        websocket_errors: v2::model::increment(s.websocket_errors),
        ..s
    })
}

proof fn lemma_failed(s: State, connection_id: u64, error: Text)
    ensures
        only_failed(s, s.failed(connection_id, error), connection_id, error),
{
    assert(s.failed(connection_id, error).browser_outputs =~= s.browser_outputs + error_outputs(
        connection_id,
        error,
    ));
}

/// A frame that cannot be read, or that asks for something unknown, is answered and
/// ends the connection.
pub proof fn law_unknown_frame_is_refused(
    s: State,
    connection_id: u64,
    error: Text,
    msg: WsClientMsgView,
    now: Instant,
)
    requires
        msg.cmd != "register"@,
        msg.cmd != "send"@,
    ensures
        only_failed(
            s,
            s.handle_frame(connection_id, Err(error), now).0,
            connection_id,
            "websocket.JSON.Receive error: "@ + error,
        ),
        only_failed(
            s,
            s.handle_frame(connection_id, Ok(msg), now).0,
            connection_id,
            "Invalid message: unexpected 'cmd'"@,
        ),
{
    lemma_failed(s, connection_id, "websocket.JSON.Receive error: "@ + error);
    lemma_failed(s, connection_id, "Invalid message: unexpected 'cmd'"@);
}

/// A connection that is registered cannot register again, and one that is not cannot
/// send.
pub proof fn law_registration_comes_once_and_first(
    s: State,
    connection_id: u64,
    msg: WsClientMsgView,
    now: Instant,
)
    ensures
        msg.cmd == "register"@ && (msg.ver is None || msg.ver == Some(2u8)) && s.is_registered(
            connection_id,
        ) ==> only_failed(
            s,
            s.handle_frame(connection_id, Ok(msg), now).0,
            connection_id,
            "Duplicated register request"@,
        ),
        msg.cmd == "send"@ && msg.msg.len() > 0 && !s.is_registered(connection_id) ==> only_failed(
            s,
            s.handle_frame(connection_id, Ok(msg), now).0,
            connection_id,
            "Client not registered"@,
        ),
{
    reveal_strlit("register");
    reveal_strlit("send");
    assert("register"@.len() != "send"@.len());
    lemma_failed(s, connection_id, "Duplicated register request"@);
    lemma_failed(s, connection_id, "Client not registered"@);
}

/// A V2 registration is refused, and nothing else happens, unless room and client are
/// named by numbers in canonical notation and the token is the one of the admission.
pub proof fn law_v2_registration_is_strict(
    s: State,
    connection_id: u64,
    msg: WsClientMsgView,
    now: Instant,
)
    requires
        msg.cmd == "register"@,
        msg.ver == Some(2u8),
        !({
            &&& text::canonical(msg.roomid) matches Some(room_id)
            &&& text::canonical(msg.clientid) matches Some(client_id)
            &&& s.v2_rooms.is_member(room_id, client_id)
            &&& s.v2_rooms.rooms[room_id].members[client_id].token == msg.token
        }),
    ensures
        exists|error: Text| #[trigger]
            only_failed(s, s.handle_frame(connection_id, Ok(msg), now).0, connection_id, error),
{
    let t = s.handle_frame(connection_id, Ok(msg), now).0;
    lemma_failed(s, connection_id, "Duplicated register request"@);
    lemma_failed(s, connection_id, "INVALID_ROOM_ID"@);
    lemma_failed(s, connection_id, "INVALID_CLIENT_ID"@);
    lemma_failed(s, connection_id, "UNAUTHORIZED"@);
    lemma_failed(s, connection_id, "ROOM_TRANSITION"@);
}

/// A second connection that registers for a client that is connected is refused and
/// ended; the first one stays.
pub proof fn law_duplicate_registration_ends_the_newcomer(
    s: State,
    connection_id: u64,
    msg: WsClientMsgView,
    now: Instant,
)
    requires
        s.inv(),
        msg.cmd == "register"@,
        msg.ver is None,
        msg.roomid.len() > 0,
        msg.clientid.len() > 0,
        !s.is_registered(connection_id),
        s.connections.contains_key((msg.roomid, msg.clientid)),
    ensures
        only_failed(
            s,
            s.handle_frame(connection_id, Ok(msg), now).0,
            connection_id,
            "Duplicated registration"@,
        ),
{
    assert(s.rooms.is_connected(msg.roomid, msg.clientid));
    let room = s.rooms.rooms[msg.roomid];
    assert(s.rooms.rooms.insert(msg.roomid, room) =~= s.rooms.rooms);
    lemma_failed(s, connection_id, "Duplicated registration"@);
}

/// The same for V2: a client whose browser is connected cannot be taken over.
pub proof fn law_duplicate_v2_registration_ends_the_newcomer(
    s: State,
    connection_id: u64,
    msg: WsClientMsgView,
    now: Instant,
    room_id: u64,
    client_id: u64,
)
    requires
        msg.cmd == "register"@,
        msg.ver == Some(2u8),
        text::canonical(msg.roomid) == Some(room_id),
        text::canonical(msg.clientid) == Some(client_id),
        msg.token.len() > 0,
        !s.is_registered(connection_id),
        s.v2_rooms.is_member(room_id, client_id),
        s.v2_rooms.rooms[room_id].mode != RoomMode::Upgrading,
        s.v2_rooms.rooms[room_id].members[client_id].token == msg.token,
        s.v2_rooms.rooms[room_id].members[client_id].registered,
    ensures
        only_failed(
            s,
            s.handle_frame(connection_id, Ok(msg), now).0,
            connection_id,
            "Duplicated registration"@,
        ),
{
    lemma_failed(s, connection_id, "Duplicated registration"@);
}

/// Whether a connection is the one that its client is reached by.
pub open spec fn is_current(s: State, connection_id: u64) -> bool {
    &&& s.sessions.contains_key(connection_id)
    &&& match s.sessions[connection_id] {
        Session::Connected => false,
        Session::RegisteredV1 { roomid, clientid } => {
            &&& s.connections.contains_key((roomid, clientid))
            &&& s.connections[(roomid, clientid)] == connection_id
        },
        Session::RegisteredV2 { room_id, client_id } => {
            &&& s.v2_connections.contains_key((room_id, client_id))
            &&& s.v2_connections[(room_id, client_id)] == connection_id
        },
    }
}

/// The late end of a connection that is not the current one of a client concerns no
/// client: whoever has taken over stays.
pub proof fn law_stale_disconnect_is_ignored(s: State, connection_id: u64, now: Instant)
    requires
        !is_current(s, connection_id),
    ensures
        s.handle_read(BrowserInputView::Disconnected { connection_id, now }) == (
            State { sessions: s.sessions.remove(connection_id), ..s },
            Ok::<(), Text>(()),
        ),
{
    if !s.sessions.contains_key(connection_id) {
        assert(s.sessions.remove(connection_id) =~= s.sessions);
    }
}

// V1

/// A V1 registration is silent where nothing is queued for the client.
pub proof fn law_v1_registration_is_silent(
    s: State,
    connection_id: u64,
    msg: WsClientMsgView,
    now: Instant,
)
    requires
        s.inv(),
        msg.cmd == "register"@,
        msg.ver is None,
        msg.roomid.len() > 0,
        msg.clientid.len() > 0,
        !s.is_registered(connection_id),
        s.rooms.register(now, msg.roomid, msg.clientid).1 is Ok,
        forall|c: Text| #[trigger]
            s.rooms.room(msg.roomid).clients.contains_key(c) ==> s.rooms.room(
                msg.roomid,
            ).clients[c].msgs.len() == 0,
    ensures
        ({
            let t = s.handle_frame(connection_id, Ok(msg), now).0;
            &&& t.browser_outputs == s.browser_outputs
            &&& t.connections == s.connections.insert((msg.roomid, msg.clientid), connection_id)
            &&& t.rooms.is_connected(msg.roomid, msg.clientid)
        }),
{
    let r = msg.roomid;
    let c = msg.clientid;
    let rooms = s.rooms.register(now, r, c).0;
    tables::law_clients_keep_inv(s.rooms, now, r, c, false, Seq::empty());
    tables::lemma_room(s.rooms, r);
    let room = s.rooms.room(r);
    let here = room.joined(now, c);
    crate::room::laws::lemma_joined(room, now, c);
    let connected = here.with_client(c, here.clients[c].connected());
    assert(connected.clients.dom() =~= here.clients.dom());
    if connected.others(c).len() > 0 {
        crate::room::laws::lemma_first_other(connected, c);
    }
    assert(rooms.is_written());
    tables::lemma_nothing_written(rooms);
    lemma_connected(s.rooms, now, r, c, false, Seq::empty(), r, c);
    let t = s.handle_frame(connection_id, Ok(msg), now).0;
    assert(rooms.writes().filter(super::model::is_deliverable(t.connections)) =~= Seq::empty()) by {
        reveal(Seq::filter);
    }
    assert(t.browser_outputs =~= s.browser_outputs);
}

/// A message of a V1 client reaches the connection of its peer, once, and nobody else;
/// nothing else changes.
#[verifier::rlimit(40)]
pub proof fn law_v1_message_is_relayed_once(
    s: State,
    connection_id: u64,
    msg: WsClientMsgView,
    now: Instant,
    roomid: Text,
    clientid: Text,
    peerid: Text,
)
    requires
        s.inv(),
        s.sessions.contains_key(connection_id),
        s.sessions[connection_id] == (Session::RegisteredV1 { roomid, clientid }),
        s.rooms.rooms[roomid].clients.dom() == set![clientid, peerid],
        clientid != peerid,
        s.connections.contains_key((roomid, peerid)),
        msg.cmd == "send"@,
        msg.msg.len() > 0,
    ensures
        s.handle_frame(connection_id, Ok(msg), now) == (
            s.with_output(
                BrowserOutputView::Text {
                    connection_id: s.connections[(roomid, peerid)],
                    text: messages::wire_msg(msg.msg),
                },
            ),
            Ok::<(), Text>(()),
        ),
{
    reveal_strlit("register");
    reveal_strlit("send");
    assert("register"@.len() != "send"@.len());
    let message = MessageView { roomid, clientid, msg: msg.msg };
    assert(s.connections.contains_key((roomid, clientid)));
    assert(s.rooms.is_connected(roomid, clientid));
    assert(s.rooms.is_connected(roomid, peerid));
    tables::law_read_is_sent(s.rooms, now, message);
    let room = s.rooms.rooms[roomid];
    crate::room::laws::law_message_reaches_connected_peer(
        room,
        now,
        clientid,
        peerid,
        msg.msg,
    );
    let rooms = s.rooms.send(now, roomid, clientid, msg.msg).0;
    tables::law_clients_keep_inv(s.rooms, now, roomid, clientid, false, msg.msg);
    let delivery = MessageView { roomid, clientid: peerid, msg: msg.msg };
    assert(rooms.rooms[roomid].clients[peerid].writes =~= seq![delivery]);
    tables::lemma_client_writes(rooms, roomid, peerid);
    let deliverable = super::model::is_deliverable(s.connections);
    assert(rooms.writes().filter(deliverable) =~= seq![delivery]) by {
        reveal_with_fuel(Seq::filter, 2);
        assert(seq![delivery].drop_last() =~= Seq::empty());
    }
    assert(seq![delivery].map_values(super::model::delivered(s.connections)) =~= seq![
        BrowserOutputView::Text {
            connection_id: s.connections[(roomid, peerid)],
            text: messages::wire_msg(msg.msg),
        },
    ]);
    let t = State { rooms, ..s };
    let u = t.with_room_writes_drained();
    tables::lemma_nothing_written(s.rooms);
    let back = rooms.without_writes();
    assert(back.rooms.dom() =~= s.rooms.rooms.dom());
    assert(back.rooms[roomid] == rooms.rooms[roomid].without_writes());
    assert(s.rooms.rooms[roomid].without_writes() == s.rooms.rooms[roomid]) by {
        assert(s.rooms.without_writes().rooms[roomid] == s.rooms.rooms[roomid]);
    }
    assert(back.rooms[roomid].clients =~= room.without_writes().clients);
    assert forall|r: Text| s.rooms.rooms.dom().contains(r) implies back.rooms[r]
        == s.rooms.rooms[r] by {
        assert(s.rooms.without_writes().rooms[r] == s.rooms.rooms[r]);
    }
    assert(back.rooms =~= s.rooms.rooms);
    assert(u.browser_outputs =~= s.browser_outputs.push(
        BrowserOutputView::Text {
            connection_id: s.connections[(roomid, peerid)],
            text: messages::wire_msg(msg.msg),
        },
    ));
}

// V2

/// A V2 message without an epoch in canonical notation, or of another epoch than the
/// current one, is dropped, and nothing changes.
pub proof fn law_v2_stale_message_is_dropped(
    s: State,
    connection_id: u64,
    msg: WsClientMsgView,
    now: Instant,
    room_id: u64,
    client_id: u64,
)
    requires
        s.sessions.contains_key(connection_id),
        s.sessions[connection_id] == (Session::RegisteredV2 { room_id, client_id }),
        s.v2_rooms.rooms.contains_key(room_id),
        s.v2_rooms.actions.len() == 0,
        msg.cmd == "send"@,
        msg.msg.len() > 0,
        super::model::canonical_epoch(msg.epoch) != Some(s.v2_rooms.rooms[room_id].signal_epoch),
    ensures
        s.handle_frame(connection_id, Ok(msg), now) == (s, Ok::<(), Text>(())),
{
    reveal_strlit("register");
    reveal_strlit("send");
    assert("register"@.len() != "send"@.len());
    lemma_actions_drained(s);
}

/// A V2 client that registers is told first how its room runs, and then gets what its
/// peer has queued, in order.
pub proof fn law_v2_snapshot_precedes_the_queue(
    s: State,
    connection_id: u64,
    msg: WsClientMsgView,
    now: Instant,
    room_id: u64,
    client_id: u64,
)
    requires
        msg.cmd == "register"@,
        msg.ver == Some(2u8),
        text::canonical(msg.roomid) == Some(room_id),
        text::canonical(msg.clientid) == Some(client_id),
        msg.token.len() > 0,
        !s.is_registered(connection_id),
        s.v2_rooms.register(room_id, client_id, msg.token).1 is Ok,
    ensures
        ({
            let registration = s.v2_rooms.register(room_id, client_id, msg.token).1->Ok_0;
            let queued = registration.queued_messages;
            let t = s.handle_frame(connection_id, Ok(msg), now).0;
            let count = s.browser_outputs.len();
            &&& t.v2_connections == s.v2_connections.insert((room_id, client_id), connection_id)
            &&& t.browser_outputs.len() == count + 1 + queued.len()
            &&& t.browser_outputs.take(count as int) == s.browser_outputs
            &&& t.browser_outputs[count as int] == (BrowserOutputView::Text {
                connection_id,
                text: messages::wire_registered(
                    "registered"@,
                    super::model::number(room_id),
                    super::model::number(registration.signal_epoch),
                    super::model::mode_name(registration.mode),
                    registration.is_initiator,
                ),
            })
            &&& forall|i: int|
                0 <= i < queued.len() ==> #[trigger] t.browser_outputs[count + 1 + i] == (
                BrowserOutputView::Text {
                    connection_id,
                    text: messages::wire_msg(queued[i]),
                })
        }),
{
    let t = s.handle_frame(connection_id, Ok(msg), now).0;
    assert(t.browser_outputs.take(s.browser_outputs.len() as int) =~= s.browser_outputs);
}

// Room servers

/// Whether a command of a room server is still to be answered by a V2 room.
pub open spec fn is_awaited(t: v2::model::Table, request_id: u64, room_id: u64) -> bool {
    &&& t.rooms.contains_key(room_id)
    &&& {
        let room = t.rooms[room_id];
        ||| room.upgrade matches Some(upgrade) && upgrade.authority_request_id == request_id
        ||| room.pending_join matches Some(join) && join.authority_request_id == request_id
        ||| room.pending_leave matches Some(leave) && leave.authority_request_id == Some(
            request_id,
        )
    }
}

/// The room of a V2 admission or removal.
pub open spec fn v2_room_of(operation: AuthorityOperationView) -> Option<u64> {
    match operation {
        AuthorityOperationView::AdmitV2 { room_id, .. } => Some(room_id),
        AuthorityOperationView::RemoveV2 { room_id, .. } => Some(room_id),
        _ => None,
    }
}

/// Every command of a room server is answered at once, or by its V2 room later on.
pub proof fn law_every_command_is_answered(s: State, command: AuthorityCommandView)
    requires
        s.inv(),
    ensures
        ({
            let t = s.handle_authority(command);
            let count = s.authority_responses.len();
            ||| t.authority_responses.len() > count && t.authority_responses[count as int].request_id
                == command.request_id
            ||| v2_room_of(command.operation) matches Some(room_id) && is_awaited(
                t.v2_rooms,
                command.request_id,
                room_id,
            )
        }),
{
    let request_id = command.request_id;
    match command.operation {
        AuthorityOperationView::AdmitV2 { room_id, client_id, admission_token, now } => {
            let (v2_rooms, result) = s.v2_rooms.admit_client(
                request_id,
                now,
                room_id,
                client_id,
                admission_token,
            );
            let t = State { v2_rooms, ..s };
            match result {
                Ok(AdmissionResultView::Complete(admission)) => {
                    lemma_answer_is_first(
                        t,
                        request_id,
                        AuthorityResultView::admitted_v2(admission),
                    );
                },
                Ok(AdmissionResultView::Pending) => {
                    lemma_actions_drained(t);
                    assert(is_awaited(v2_rooms, request_id, room_id));
                },
                Err(result) => {
                    lemma_answer_is_first(t, request_id, AuthorityResultView::Error { result });
                },
            }
        },
        AuthorityOperationView::RemoveV2 { room_id, client_id, admission_token } => {
            let (v2_rooms, result) = s.v2_rooms.remove(
                request_id,
                room_id,
                client_id,
                admission_token,
            );
            let t = State { v2_rooms, ..s };
            match result {
                Ok(RemovalResult::Complete(promotion)) => {
                    let closed = t.with_v2_client_closed(room_id, client_id);
                    let told = match promotion {
                        Some(promotion) => closed.with_promotion(promotion),
                        None => closed,
                    };
                    lemma_answer_is_first(told, request_id, AuthorityResultView::RemovedV2);
                },
                Ok(RemovalResult::Pending) => {
                    lemma_actions_drained(t);
                    assert(is_awaited(v2_rooms, request_id, room_id));
                },
                Err(result) => {
                    lemma_answer_is_first(t, request_id, AuthorityResultView::Error { result });
                },
            }
        },
        AuthorityOperationView::Admit { roomid, clientid, is_loopback, now } => {
            let (rooms, result) = s.rooms.join(now, roomid, clientid, is_loopback);
            lemma_answer_is_first(
                State { rooms, ..s },
                request_id,
                match result {
                    Ok((is_initiator, messages)) => AuthorityResultView::Admitted {
                        is_initiator,
                        messages,
                    },
                    Err(result) => AuthorityResultView::Error { result },
                },
            );
        },
        AuthorityOperationView::Remove { roomid, clientid } => {
            lemma_answer_is_first(
                State {
                    rooms: s.rooms.without_client(roomid, clientid),
                    ..s.with_client_closed(roomid, clientid)
                },
                request_id,
                AuthorityResultView::Removed,
            );
        },
        AuthorityOperationView::Occupancy { roomid } => {
            lemma_answer_is_first(
                s,
                request_id,
                AuthorityResultView::Occupancy { count: s.rooms.occupancy(roomid) },
            );
        },
        AuthorityOperationView::Inject { roomid, clientid, msg, now } => {
            let (rooms, result) = s.rooms.send(now, roomid, clientid, msg);
            let t = State { rooms, ..s };
            match result {
                Ok(_) => {
                    lemma_answer_is_first(
                        t.with_room_writes_drained(),
                        request_id,
                        AuthorityResultView::Injected,
                    );
                },
                Err(result) => {
                    lemma_answer_is_first(t, request_id, AuthorityResultView::Error { result });
                },
            }
        },
        AuthorityOperationView::OccupancyV2 { room_id } => {
            lemma_answer_is_first(
                s,
                request_id,
                AuthorityResultView::OccupancyV2 {
                    count: s.v2_rooms.occupancy(room_id).0,
                    mode: s.v2_rooms.occupancy(room_id).1,
                },
            );
        },
        AuthorityOperationView::Status => {
            lemma_answer_is_first(s, request_id, AuthorityResultView::Status(s.status()));
        },
    }
}

proof fn lemma_answer_is_first(s: State, request_id: u64, result: AuthorityResultView)
    ensures
        s.answered(request_id, result).authority_responses.len() > s.authority_responses.len(),
        s.answered(request_id, result).authority_responses[s.authority_responses.len() as int]
            == (AuthorityResponseView { request_id, result }),
{
    let t = s.with_response(request_id, result);
    lemma_actions_drained(t);
    assert(t.with_actions_drained().authority_responses[s.authority_responses.len() as int]
        == t.authority_responses[s.authority_responses.len() as int]);
}

/// After a command of a room server, after time has passed and after what a worker sent
/// was accepted, no action of a V2 room is left to be performed.
pub proof fn law_actions_are_performed(
    s: State,
    command: AuthorityCommandView,
    input: sfu::InputView,
    now: Instant,
)
    ensures
        s.handle_authority(command).v2_rooms.actions.len() == 0,
        s.handle_timeout(now).v2_rooms.actions.len() == 0,
        s.handle_sfu_input(input).1 is Ok ==> s.handle_sfu_input(input).0.v2_rooms.actions.len()
            == 0,
{
    lemma_actions_drained(State { v2_rooms: s.v2_rooms.handle_sfu_input(input).0, ..s });
    let (v2_rooms, promotions) = s.v2_rooms.handle_timeout(now);
    lemma_actions_drained(
        State { rooms: s.rooms.handle_timeout(now), v2_rooms, ..s }.with_promotions(promotions),
    );
    lemma_authority_drains(s, command);
}

proof fn lemma_authority_drains(s: State, command: AuthorityCommandView)
    ensures
        s.handle_authority(command).v2_rooms.actions.len() == 0,
{
    let t = s.handle_authority(command);
    assert(exists|u: State| t == #[trigger] u.with_actions_drained());
    let u = choose|u: State| t == #[trigger] u.with_actions_drained();
    lemma_actions_drained(u);
}

/// When a member has left its worker, the one that is left of the SFU room and has a
/// connection gets the frame that promotes it, once, and as the last thing.
pub proof fn law_leave_is_told_to_the_survivor(
    s: State,
    now: Instant,
    connection_id: u64,
    instance_id: Text,
    request_id: u64,
    left: sfu::LeaveMember,
    survivor_id: u64,
)
    requires
        s.v2_rooms.inv(),
        s.v2_rooms.actions.len() == 0,
        v2::laws::dwell::is_asked_to_leave(
            s.v2_rooms,
            connection_id,
            instance_id,
            request_id,
            left,
        ),
        s.v2_rooms.rooms[left.room_id].members.dom() == set![left.client_id, survivor_id],
        left.client_id != survivor_id,
        s.v2_rooms.rooms[left.room_id].members[survivor_id].registered,
        s.v2_connections.contains_key((left.room_id, survivor_id)),
    ensures
        ({
            let room_id = left.room_id;
            let room = s.v2_rooms.rooms[room_id];
            let (t, answer) = s.handle_sfu_input(
                v2::laws::upgrades::result_input(
                    connection_id,
                    instance_id,
                    request_id,
                    Ok(sfu::CommandOk::MemberLeft(left)),
                    now,
                ),
            );
            let told = BrowserOutputView::Text {
                connection_id: s.v2_connections[(room_id, survivor_id)],
                text: messages::wire_offer(
                    "p2p-promote"@,
                    super::model::number(room_id),
                    super::model::number(room.signal_epoch),
                    true,
                ),
            };
            &&& answer is Ok
            &&& t.browser_outputs == if room.pending_leave->0.authority_request_id is Some {
                s.with_v2_client_closed(room_id, left.client_id).browser_outputs.push(told)
            } else {
                s.browser_outputs.push(told)
            }
        }),
{
    let input = v2::laws::upgrades::result_input(
        connection_id,
        instance_id,
        request_id,
        Ok(sfu::CommandOk::MemberLeft(left)),
        now,
    );
    v2::laws::browsers::law_leave_promotes_survivor(
        s.v2_rooms,
        now,
        connection_id,
        instance_id,
        request_id,
        left,
        survivor_id,
    );
    let room = s.v2_rooms.rooms[left.room_id];
    let pending = room.pending_leave->0;
    let v2_rooms = s.v2_rooms.handle_sfu_input(input).0;
    let t = State { v2_rooms: v2::model::Table { actions: Seq::empty(), ..v2_rooms }, ..s };
    let actions = v2_rooms.actions;
    let answer = ActionView::removal(pending, left.room_id, left.client_id, Ok(()));
    assert(actions.drop_last() =~= answer);
    assert(answer.len() > 0 ==> answer.drop_last() =~= Seq::empty());
    assert(t.performed(Seq::empty()) == t);
    assert(t.performed(actions) == t.performed(answer).after_action(actions.last()));
    if pending.authority_request_id is Some {
        assert(t.performed(answer) == t.performed(answer.drop_last()).after_action(answer.last()));
        assert(t.with_v2_client_closed(left.room_id, left.client_id).browser_outputs
            =~= s.with_v2_client_closed(left.room_id, left.client_id).browser_outputs);
    }
}

} // verus!
