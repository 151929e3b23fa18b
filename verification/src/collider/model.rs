//! The state of the signaling authority as mathematical values, and what each
//! input does to it.

use crate::collider::{
    AuthorityCommandView, AuthorityOperationView, AuthorityResponseView, AuthorityResultView,
    BrowserInputView, BrowserOutputView, StatusSnapshot,
};
use crate::messages;
use crate::messages::{MessageView, WsClientMsgView};
use crate::ord_map;
use crate::room_table::TableView;
use crate::seqs;
use crate::seqs::Text;
use crate::sfu;
use crate::text;
use crate::time::{Duration, Instant};
use crate::v2;
use crate::v2::{ActionView, AdmissionResultView, Promotion, RemovalResult, RoomMode};
use vstd::prelude::*;

verus! {

/// What is known of a browser connection.
#[verifier::ext_equal]
pub enum Session {
    Connected,
    RegisteredV1 { roomid: Text, clientid: Text },
    RegisteredV2 { room_id: u64, client_id: u64 },
}

#[verifier::ext_equal]
pub struct State {
    pub rooms: TableView,
    pub v2_rooms: v2::model::Table,
    pub sessions: Map<u64, Session>,
    pub connections: Map<(Text, Text), u64>,
    pub v2_connections: Map<(u64, u64), u64>,
    pub browser_outputs: Seq<BrowserOutputView>,
    pub authority_responses: Seq<AuthorityResponseView>,
    pub total_websocket_connections: u64,
    pub websocket_errors: u64,
}

/// How a mode is called on the wire.
pub open spec fn mode_name(mode: RoomMode) -> Text {
    match mode {
        RoomMode::P2p => "p2p"@,
        RoomMode::Upgrading => "upgrading"@,
        RoomMode::Sfu => "sfu"@,
        RoomMode::Failed => "failed"@,
    }
}

/// An identifier or epoch on the wire.
pub open spec fn number(n: u64) -> Text {
    text::decimal(n as nat)
}

/// Which messages are for a client with a connection.
pub open spec fn is_deliverable(connections: Map<(Text, Text), u64>) -> spec_fn(
    MessageView,
) -> bool {
    |m: MessageView| connections.contains_key((m.roomid, m.clientid))
}

/// A message as the socket of its client gets it.
pub open spec fn delivered(connections: Map<(Text, Text), u64>) -> spec_fn(
    MessageView,
) -> BrowserOutputView {
    |m: MessageView|
        BrowserOutputView::Text {
            connection_id: connections[(m.roomid, m.clientid)],
            text: messages::wire_msg(m.msg),
        }
}

/// Which clients of a room have a connection.
pub open spec fn is_reachable(connections: Map<(u64, u64), u64>, room_id: u64) -> spec_fn(
    u64,
) -> bool {
    |c: u64| connections.contains_key((room_id, c))
}

/// A text for a client of a room.
pub open spec fn addressed(
    connections: Map<(u64, u64), u64>,
    room_id: u64,
    text: spec_fn(u64) -> Text,
) -> spec_fn(u64) -> BrowserOutputView {
    |c: u64|
        BrowserOutputView::Text { connection_id: connections[(room_id, c)], text: text(c) }
}

/// The news of an upgrade, the same for every client.
pub open spec fn upgrade_text(room_id: u64, signal_epoch: u64) -> spec_fn(u64) -> Text {
    |c: u64| messages::wire_upgrade("sfu-upgrade"@, number(room_id), number(signal_epoch))
}

/// The news of a downgrade for each client.
pub open spec fn downgrade_text(room_id: u64, signal_epoch: u64, initiator: u64) -> spec_fn(
    u64,
) -> Text {
    |c: u64|
        messages::wire_offer(
            "sfu-downgrade"@,
            number(room_id),
            number(signal_epoch),
            c == initiator,
        )
}

/// The news of a failure, the same for every client.
pub open spec fn failure_text(room_id: u64, reason: Text) -> spec_fn(u64) -> Text {
    |c: u64| messages::wire_room_failed("room-failed"@, number(room_id), reason)
}

/// The relay frame for a queued message.
pub open spec fn relay_output(connection_id: u64) -> spec_fn(Text) -> BrowserOutputView {
    |msg: Text| BrowserOutputView::Text { connection_id, text: messages::wire_msg(msg) }
}

/// The end of a connection.
pub open spec fn close_output() -> spec_fn(u64) -> BrowserOutputView {
    |connection_id: u64| BrowserOutputView::Close { connection_id }
}

impl State {
    pub open spec fn initial(register_timeout: Duration) -> State {
        State {
            rooms: TableView::initial(register_timeout),
            v2_rooms: v2::model::Table::initial(register_timeout),
            sessions: Map::empty(),
            connections: Map::empty(),
            v2_connections: Map::empty(),
            browser_outputs: Seq::empty(),
            authority_responses: Seq::empty(),
            total_websocket_connections: 0,
            websocket_errors: 0,
        }
    }

    pub open spec fn with_output(self, output: BrowserOutputView) -> State {
        State { browser_outputs: self.browser_outputs.push(output), ..self }
    }

    pub open spec fn with_outputs(self, outputs: Seq<BrowserOutputView>) -> State {
        State { browser_outputs: self.browser_outputs + outputs, ..self }
    }

    pub open spec fn with_response(self, request_id: u64, result: AuthorityResultView) -> State {
        State {
            authority_responses: self.authority_responses.push(
                AuthorityResponseView { request_id, result },
            ),
            ..self
        }
    }

    /// The browser was told what is wrong, and its connection ends.
    pub open spec fn failed(self, connection_id: u64, error: Text) -> State {
        State { websocket_errors: v2::model::increment(self.websocket_errors), ..self }.with_output(
            BrowserOutputView::Text { connection_id, text: messages::wire_err(error) },
        ).with_output(BrowserOutputView::Close { connection_id })
    }

    // Browsers

    pub open spec fn handle_read(self, input: BrowserInputView) -> (State, Result<(), Text>) {
        match input {
            BrowserInputView::Connected { connection_id } => (
                State {
                    sessions: self.sessions.insert(connection_id, Session::Connected),
                    ..self
                },
                Ok(()),
            ),
            BrowserInputView::Text { connection_id, text, now } => self.handle_frame(
                connection_id,
                WsClientMsgView::read(text),
                now,
            ),
            BrowserInputView::Disconnected { connection_id, now } => (
                self.disconnect(connection_id, now),
                Ok(()),
            ),
        }
    }

    /// A frame of a browser, or the reason why it could not be read.
    pub open spec fn handle_frame(
        self,
        connection_id: u64,
        frame: Result<WsClientMsgView, Text>,
        now: Instant,
    ) -> (State, Result<(), Text>) {
        match frame {
            Err(error) => (
                self.failed(connection_id, "websocket.JSON.Receive error: "@ + error),
                Ok(()),
            ),
            Ok(msg) => if msg.cmd == "register"@ {
                if msg.ver == Some(2u8) {
                    (self.register_v2(connection_id, msg), Ok(()))
                } else if msg.ver is None {
                    (self.register_v1(connection_id, msg, now), Ok(()))
                } else {
                    (self.failed(connection_id, "INVALID_VERSION"@), Ok(()))
                }
            } else if msg.cmd == "send"@ {
                self.send(connection_id, msg, now)
            } else {
                (self.failed(connection_id, "Invalid message: unexpected 'cmd'"@), Ok(()))
            },
        }
    }

    pub open spec fn is_registered(self, connection_id: u64) -> bool {
        self.sessions.contains_key(connection_id) && !(self.sessions[connection_id] is Connected)
    }

    pub open spec fn register_v1(
        self,
        connection_id: u64,
        msg: WsClientMsgView,
        now: Instant,
    ) -> State {
        if self.is_registered(connection_id) {
            self.failed(connection_id, "Duplicated register request"@)
        } else if msg.roomid.len() == 0 || msg.clientid.len() == 0 {
            self.failed(
                connection_id,
                "Invalid register request: missing 'clientid' or 'roomid'"@,
            )
        } else {
            let (rooms, result) = self.rooms.register(now, msg.roomid, msg.clientid);
            match result {
                Err(error) => State { rooms, ..self }.failed(connection_id, error),
                Ok(_) => State {
                    rooms,
                    sessions: self.sessions.insert(
                        connection_id,
                        Session::RegisteredV1 { roomid: msg.roomid, clientid: msg.clientid },
                    ),
                    connections: self.connections.insert(
                        (msg.roomid, msg.clientid),
                        connection_id,
                    ),
                    total_websocket_connections: v2::model::increment(self.total_websocket_connections),
                    ..self
                }.with_room_writes_drained(),
            }
        }
    }

    /// All messages for V1 clients went to their connections, as far as they have one.
    pub open spec fn with_room_writes_drained(self) -> State {
        State { rooms: self.rooms.without_writes(), ..self }.with_outputs(
            self.rooms.writes().filter(is_deliverable(self.connections)).map_values(
                delivered(self.connections),
            ),
        )
    }

    pub open spec fn register_v2(self, connection_id: u64, msg: WsClientMsgView) -> State {
        if self.is_registered(connection_id) {
            self.failed(connection_id, "Duplicated register request"@)
        } else {
            match (text::canonical(msg.roomid), text::canonical(msg.clientid)) {
                (None, _) => self.failed(connection_id, "INVALID_ROOM_ID"@),
                (_, None) => self.failed(connection_id, "INVALID_CLIENT_ID"@),
                (Some(room_id), Some(client_id)) => if msg.token.len() == 0 {
                    self.failed(connection_id, "UNAUTHORIZED"@)
                } else {
                    let (v2_rooms, result) = self.v2_rooms.register(room_id, client_id, msg.token);
                    let t = State { v2_rooms, ..self };
                    match result {
                        Err(error) => t.failed(connection_id, error),
                        Ok(registration) => t.registered_v2(
                            connection_id,
                            room_id,
                            client_id,
                            registration,
                        ),
                    }
                },
            }
        }
    }

    /// The connection belongs to the client from here on. It is told first how its
    /// room runs, and then what the peer has queued.
    pub open spec fn registered_v2(
        self,
        connection_id: u64,
        room_id: u64,
        client_id: u64,
        registration: v2::RegistrationView,
    ) -> State {
        State {
            sessions: self.sessions.insert(
                connection_id,
                Session::RegisteredV2 { room_id, client_id },
            ),
            v2_connections: self.v2_connections.insert((room_id, client_id), connection_id),
            total_websocket_connections: v2::model::increment(self.total_websocket_connections),
            ..self
        }.with_output(
            BrowserOutputView::Text {
                connection_id,
                text: messages::wire_registered(
                    "registered"@,
                    number(room_id),
                    number(registration.signal_epoch),
                    mode_name(registration.mode),
                    registration.is_initiator,
                ),
            },
        ).with_outputs(registration.queued_messages.map_values(relay_output(connection_id)))
    }

    pub open spec fn send(self, connection_id: u64, msg: WsClientMsgView, now: Instant) -> (
        State,
        Result<(), Text>,
    ) {
        if !self.sessions.contains_key(connection_id) {
            (self.failed(connection_id, "Client not registered"@), Ok(()))
        } else if msg.msg.len() == 0 {
            (self.failed(connection_id, "Invalid send request: missing 'msg'"@), Ok(()))
        } else {
            match self.sessions[connection_id] {
                Session::RegisteredV1 { roomid, clientid } => self.send_v1(
                    MessageView { roomid, clientid, msg: msg.msg },
                    now,
                ),
                Session::RegisteredV2 { room_id, client_id } => self.send_v2(
                    room_id,
                    client_id,
                    msg.epoch,
                    msg.msg,
                ),
                Session::Connected => (
                    self.failed(connection_id, "Client not registered"@),
                    Ok(()),
                ),
            }
        }
    }

    pub open spec fn send_v1(self, message: MessageView, now: Instant) -> (
        State,
        Result<(), Text>,
    ) {
        let read = self.rooms.after_read(message);
        let (rooms, result) = read.relay_reads(now, read.reads().len());
        let t = State { rooms, ..self };
        match result {
            Ok(_) => (t.with_room_writes_drained(), Ok(())),
            Err(e) => (t, Err(e)),
        }
    }

    /// A message without a well-formed epoch is dropped.
    pub open spec fn send_v2(
        self,
        room_id: u64,
        client_id: u64,
        epoch: Option<Text>,
        message: Text,
    ) -> (State, Result<(), Text>) {
        match canonical_epoch(epoch) {
            None => (self, Ok(())),
            Some(signal_epoch) => {
                let (v2_rooms, result) = self.v2_rooms.send(
                    room_id,
                    client_id,
                    signal_epoch,
                    message,
                );
                let t = State { v2_rooms, ..self };
                match result {
                    Err(e) => (t, Err(e)),
                    Ok(v2::SendResultView::P2p(Some(delivery))) => (
                        t.with_delivery(delivery).with_actions_drained(),
                        Ok(()),
                    ),
                    Ok(_) => (t.with_actions_drained(), Ok(())),
                }
            },
        }
    }

    /// A message for a V2 client went to its connection, if it has one.
    pub open spec fn with_delivery(self, delivery: v2::DeliveryView) -> State {
        let key = (delivery.room_id, delivery.client_id);
        if self.v2_connections.contains_key(key) {
            self.with_output(
                BrowserOutputView::Text {
                    connection_id: self.v2_connections[key],
                    text: messages::wire_msg(delivery.message),
                },
            )
        } else {
            self
        }
    }

    /// The connection is gone. Its client loses its registration only if no other
    /// connection has taken the client over.
    pub open spec fn disconnect(self, connection_id: u64, now: Instant) -> State {
        if !self.sessions.contains_key(connection_id) {
            self
        } else {
            let t = State { sessions: self.sessions.remove(connection_id), ..self };
            match self.sessions[connection_id] {
                Session::RegisteredV1 { roomid, clientid } => {
                    let key = (roomid, clientid);
                    if self.connections.contains_key(key) && self.connections[key]
                        == connection_id {
                        State {
                            connections: self.connections.remove(key),
                            rooms: self.rooms.deregistered(now, roomid, clientid),
                            ..t
                        }
                    } else {
                        t
                    }
                },
                Session::RegisteredV2 { room_id, client_id } => {
                    let key = (room_id, client_id);
                    if self.v2_connections.contains_key(key) && self.v2_connections[key]
                        == connection_id {
                        State {
                            v2_connections: self.v2_connections.remove(key),
                            v2_rooms: self.v2_rooms.deregister(now, room_id, client_id),
                            ..t
                        }.with_actions_drained()
                    } else {
                        t
                    }
                },
                Session::Connected => t,
            }
        }
    }

    /// The connection of a V1 client, if any, ends.
    pub open spec fn with_client_closed(self, roomid: Text, clientid: Text) -> State {
        let key = (roomid, clientid);
        if self.connections.contains_key(key) {
            let connection_id = self.connections[key];
            State {
                connections: self.connections.remove(key),
                sessions: self.sessions.remove(connection_id),
                ..self
            }.with_output(BrowserOutputView::Close { connection_id })
        } else {
            self
        }
    }

    /// The connection of a V2 client, if any, ends.
    pub open spec fn with_v2_client_closed(self, room_id: u64, client_id: u64) -> State {
        let key = (room_id, client_id);
        if self.v2_connections.contains_key(key) {
            let connection_id = self.v2_connections[key];
            State {
                v2_connections: self.v2_connections.remove(key),
                sessions: self.sessions.remove(connection_id),
                ..self
            }.with_output(BrowserOutputView::Close { connection_id })
        } else {
            self
        }
    }

    /// A survivor with a connection was told that it offers from here on.
    pub open spec fn with_promotion(self, promotion: Promotion) -> State {
        let key = (promotion.room_id, promotion.client_id);
        if self.v2_connections.contains_key(key) {
            self.with_output(
                BrowserOutputView::Text {
                    connection_id: self.v2_connections[key],
                    text: messages::wire_offer(
                        "p2p-promote"@,
                        number(promotion.room_id),
                        number(promotion.signal_epoch),
                        true,
                    ),
                },
            )
        } else {
            self
        }
    }

    pub open spec fn with_promotions(self, promotions: Seq<Promotion>) -> State
        decreases promotions.len(),
    {
        if promotions.len() == 0 {
            self
        } else {
            self.with_promotions(promotions.drop_last()).with_promotion(promotions.last())
        }
    }

    // Room servers

    pub open spec fn handle_authority(self, command: AuthorityCommandView) -> State {
        let request_id = command.request_id;
        match command.operation {
            AuthorityOperationView::Admit { roomid, clientid, is_loopback, now } => {
                let (rooms, result) = self.rooms.join(now, roomid, clientid, is_loopback);
                State { rooms, ..self }.answered(
                    request_id,
                    match result {
                        Ok((is_initiator, messages)) => AuthorityResultView::Admitted {
                            is_initiator,
                            messages,
                        },
                        Err(result) => AuthorityResultView::Error { result },
                    },
                )
            },
            AuthorityOperationView::Remove { roomid, clientid } => {
                let t = self.with_client_closed(roomid, clientid);
                State { rooms: self.rooms.without_client(roomid, clientid), ..t }.answered(
                    request_id,
                    AuthorityResultView::Removed,
                )
            },
            AuthorityOperationView::Occupancy { roomid } => self.answered(
                request_id,
                AuthorityResultView::Occupancy { count: self.rooms.occupancy(roomid) },
            ),
            AuthorityOperationView::Inject { roomid, clientid, msg, now } => {
                let (rooms, result) = self.rooms.send(now, roomid, clientid, msg);
                let t = State { rooms, ..self };
                match result {
                    Ok(_) => t.with_room_writes_drained().answered(
                        request_id,
                        AuthorityResultView::Injected,
                    ),
                    Err(result) => t.answered(request_id, AuthorityResultView::Error { result }),
                }
            },
            AuthorityOperationView::AdmitV2 { room_id, client_id, admission_token, now } => {
                let (v2_rooms, result) = self.v2_rooms.admit_client(
                    request_id,
                    now,
                    room_id,
                    client_id,
                    admission_token,
                );
                let t = State { v2_rooms, ..self };
                match result {
                    Ok(AdmissionResultView::Complete(admission)) => t.answered(
                        request_id,
                        AuthorityResultView::admitted_v2(admission),
                    ),
                    Ok(AdmissionResultView::Pending) => t.with_actions_drained(),
                    Err(result) => t.answered(request_id, AuthorityResultView::Error { result }),
                }
            },
            AuthorityOperationView::RemoveV2 { room_id, client_id, admission_token } => {
                let (v2_rooms, result) = self.v2_rooms.remove(
                    request_id,
                    room_id,
                    client_id,
                    admission_token,
                );
                let t = State { v2_rooms, ..self };
                match result {
                    Ok(RemovalResult::Complete(promotion)) => {
                        let closed = t.with_v2_client_closed(room_id, client_id);
                        (match promotion {
                            Some(promotion) => closed.with_promotion(promotion),
                            None => closed,
                        }).answered(request_id, AuthorityResultView::RemovedV2)
                    },
                    Ok(RemovalResult::Pending) => t.with_actions_drained(),
                    Err(result) => t.answered(request_id, AuthorityResultView::Error { result }),
                }
            },
            AuthorityOperationView::OccupancyV2 { room_id } => self.answered(
                request_id,
                AuthorityResultView::OccupancyV2 {
                    count: self.v2_rooms.occupancy(room_id).0,
                    mode: self.v2_rooms.occupancy(room_id).1,
                },
            ),
            AuthorityOperationView::Status => self.answered(
                request_id,
                AuthorityResultView::Status(self.status()),
            ),
        }
    }

    /// The room server got its answer, and pending actions were performed.
    pub open spec fn answered(self, request_id: u64, result: AuthorityResultView) -> State {
        self.with_response(request_id, result).with_actions_drained()
    }

    pub open spec fn status(self) -> StatusSnapshot {
        StatusSnapshot {
            rooms: self.rooms.rooms.dom().len() as usize,
            v2_rooms: self.v2_rooms.rooms.dom().len() as usize,
            clients: seqs::countable(self.rooms.client_count() + self.v2_rooms.member_count()),
            websocket_connections: seqs::countable(
                self.rooms.ws_count() + self.v2_rooms.registered_count(),
            ),
            total_websocket_connections: self.total_websocket_connections,
            websocket_errors: self.websocket_errors,
            connected_sfu_instances: self.v2_rooms.connected_workers().len() as usize,
            ready_sfu_instances: self.v2_rooms.ready_workers().len() as usize,
        }
    }

    // Workers

    pub open spec fn handle_sfu_input(self, input: sfu::InputView) -> (State, Result<(), Text>) {
        let (v2_rooms, result) = self.v2_rooms.handle_sfu_input(input);
        let t = State { v2_rooms, ..self };
        match result {
            Ok(_) => (t.with_actions_drained(), Ok(())),
            Err(e) => (t, Err(e)),
        }
    }

    /// All actions of the V2 rooms were performed in turn.
    pub open spec fn with_actions_drained(self) -> State {
        State {
            v2_rooms: v2::model::Table { actions: Seq::empty(), ..self.v2_rooms },
            ..self
        }.performed(self.v2_rooms.actions)
    }

    pub open spec fn performed(self, actions: Seq<ActionView>) -> State
        decreases actions.len(),
    {
        if actions.len() == 0 {
            self
        } else {
            self.performed(actions.drop_last()).after_action(actions.last())
        }
    }

    pub open spec fn after_action(self, action: ActionView) -> State {
        match action {
            ActionView::Sfu(output) => self.with_output(BrowserOutputView::Sfu(output)),
            ActionView::AdmissionCompleted { authority_request_id, result } => self.with_response(
                authority_request_id,
                match result {
                    Ok(admission) => AuthorityResultView::admitted_v2(admission),
                    Err(result) => AuthorityResultView::Error { result },
                },
            ),
            ActionView::RemovalCompleted { authority_request_id, room_id, client_id, result } => {
                match result {
                    Ok(_) => self.with_v2_client_closed(room_id, client_id).with_response(
                        authority_request_id,
                        AuthorityResultView::RemovedV2,
                    ),
                    Err(result) => self.with_response(
                        authority_request_id,
                        AuthorityResultView::Error { result },
                    ),
                }
            },
            ActionView::Upgraded { room_id, signal_epoch, existing_clients } => self.with_notice(
                room_id,
                existing_clients,
                upgrade_text(room_id, signal_epoch),
            ),
            ActionView::Downgraded { room_id, signal_epoch, initiator_client_id, clients } => {
                self.with_notice(
                    room_id,
                    clients,
                    downgrade_text(room_id, signal_epoch, initiator_client_id),
                )
            },
            ActionView::Deliver(delivery) => self.with_delivery(delivery),
            ActionView::Promoted(promotion) => self.with_promotion(promotion),
            ActionView::RoomFailed { room_id, clients, reason } => self.with_notice(
                room_id,
                clients,
                failure_text(room_id, reason),
            ),
        }
    }

    /// Each of these clients that has a connection got its text.
    pub open spec fn with_notice(
        self,
        room_id: u64,
        clients: Seq<u64>,
        text: spec_fn(u64) -> Text,
    ) -> State {
        self.with_outputs(
            clients.filter(is_reachable(self.v2_connections, room_id)).map_values(
                addressed(self.v2_connections, room_id, text),
            ),
        )
    }

    // Time

    pub open spec fn handle_timeout(self, now: Instant) -> State {
        let (v2_rooms, promotions) = self.v2_rooms.handle_timeout(now);
        State { rooms: self.rooms.handle_timeout(now), v2_rooms, ..self }.with_promotions(
            promotions,
        ).with_actions_drained()
    }

    /// Whether something is due at `t`.
    pub open spec fn is_deadline(self, t: Instant) -> bool {
        ||| exists|id: Text| self.rooms.is_deadline(id, t)
        ||| self.v2_rooms.is_deadline(t)
    }

    /// Every connection ends, and nothing is left but what is still to be polled.
    pub open spec fn closed(self) -> State {
        State {
            rooms: TableView::initial(self.rooms.register_timeout),
            v2_rooms: self.v2_rooms.cleared(),
            sessions: Map::empty(),
            connections: Map::empty(),
            v2_connections: Map::empty(),
            ..self
        }.with_outputs(
            ord_map::in_order::<u64>(self.sessions.dom()).map_values(close_output()),
        )
    }
}

/// The epoch that a frame names in canonical notation, if it does.
pub open spec fn canonical_epoch(epoch: Option<Text>) -> Option<u64> {
    match epoch {
        Some(epoch) => text::canonical(epoch),
        None => None,
    }
}

} // verus!
