//! Sans-I/O signaling authority for the V1 compatibility protocol and for V2.

use crate::client::ClientId;
use crate::messages;
use crate::messages::{
    Message, V2Downgrade, V2Promoted, V2Registered, V2RoomFailed, V2Upgrade, WsClientMsg,
    WsClientMsgView,
};
use crate::ord_map;
use crate::ord_map::OrdMap;
use crate::room::RoomId;
use crate::room_table;
use crate::room_table::RoomTable;
use crate::seqs;
use crate::seqs::Text;
use crate::sfu;
use crate::text;
use crate::time;
use crate::time::{Duration, Instant};
use crate::v2;
use crate::v2::RoomTable as V2RoomTable;
use std::collections::VecDeque;
use vstd::prelude::*;

pub mod laws;
pub mod model;

verus! {

broadcast use {crate::seqs::group_views, crate::ord_map::group_maps};

pub type ConnectionId = u64;

pub type RequestId = u64;

#[derive(Debug, PartialEq, Eq)]
pub enum BrowserInput {
    Connected { connection_id: ConnectionId },
    Text { connection_id: ConnectionId, text: String, now: Instant },
    Disconnected { connection_id: ConnectionId, now: Instant },
}

#[derive(Debug, PartialEq, Eq)]
pub enum BrowserOutput {
    Text { connection_id: ConnectionId, text: String },
    Close { connection_id: ConnectionId },
    Sfu(sfu::Output),
}

#[derive(Debug, PartialEq, Eq)]
pub enum AuthorityOperation {
    Admit { roomid: RoomId, clientid: ClientId, is_loopback: bool, now: Instant },
    Remove { roomid: RoomId, clientid: ClientId },
    Occupancy { roomid: RoomId },
    Inject { roomid: RoomId, clientid: ClientId, msg: String, now: Instant },
    AdmitV2 {
        room_id: v2::RoomId,
        client_id: v2::ClientId,
        admission_token: String,
        now: Instant,
    },
    RemoveV2 { room_id: v2::RoomId, client_id: v2::ClientId, admission_token: String },
    OccupancyV2 { room_id: v2::RoomId },
    Status,
}

#[derive(Debug, PartialEq, Eq)]
pub struct AuthorityCommand {
    pub request_id: RequestId,
    pub operation: AuthorityOperation,
}

#[derive(Debug, Clone, Copy, PartialEq, Eq, Structural)]
pub struct StatusSnapshot {
    pub rooms: usize,
    pub v2_rooms: usize,
    pub clients: usize,
    pub websocket_connections: usize,
    pub total_websocket_connections: u64,
    pub websocket_errors: u64,
    pub connected_sfu_instances: usize,
    pub ready_sfu_instances: usize,
}

#[derive(Debug, PartialEq, Eq)]
#[allow(inconsistent_fields)]
pub enum AuthorityResult {
    Admitted { is_initiator: bool, messages: Vec<String> },
    Removed,
    Occupancy { count: usize },
    Injected,
    AdmittedV2 {
        mode: v2::RoomMode,
        signal_epoch: u64,
        admission_token: String,
        is_initiator: Option<bool>,
    },
    RemovedV2,
    OccupancyV2 { count: usize, mode: v2::RoomMode },
    Status(StatusSnapshot),
    Error { result: String },
}

#[derive(Debug, PartialEq, Eq)]
pub struct AuthorityResponse {
    pub request_id: RequestId,
    pub result: AuthorityResult,
}

#[verifier::ext_equal]
pub enum BrowserInputView {
    Connected { connection_id: u64 },
    Text { connection_id: u64, text: Text, now: Instant },
    Disconnected { connection_id: u64, now: Instant },
}

#[verifier::ext_equal]
pub enum BrowserOutputView {
    Text { connection_id: u64, text: Text },
    Close { connection_id: u64 },
    Sfu(sfu::OutputView),
}

#[verifier::ext_equal]
pub enum AuthorityOperationView {
    Admit { roomid: Text, clientid: Text, is_loopback: bool, now: Instant },
    Remove { roomid: Text, clientid: Text },
    Occupancy { roomid: Text },
    Inject { roomid: Text, clientid: Text, msg: Text, now: Instant },
    AdmitV2 { room_id: u64, client_id: u64, admission_token: Text, now: Instant },
    RemoveV2 { room_id: u64, client_id: u64, admission_token: Text },
    OccupancyV2 { room_id: u64 },
    Status,
}

#[verifier::ext_equal]
pub struct AuthorityCommandView {
    pub request_id: u64,
    pub operation: AuthorityOperationView,
}

#[verifier::ext_equal]
#[allow(inconsistent_fields)]
pub enum AuthorityResultView {
    Admitted { is_initiator: bool, messages: Seq<Text> },
    Removed,
    Occupancy { count: nat },
    Injected,
    AdmittedV2 {
        mode: v2::RoomMode,
        signal_epoch: u64,
        admission_token: Text,
        is_initiator: Option<bool>,
    },
    RemovedV2,
    OccupancyV2 { count: nat, mode: v2::RoomMode },
    Status(StatusSnapshot),
    Error { result: Text },
}

#[verifier::ext_equal]
pub struct AuthorityResponseView {
    pub request_id: u64,
    pub result: AuthorityResultView,
}

impl AuthorityResultView {
    pub open spec fn admitted_v2(admission: v2::AdmissionView) -> AuthorityResultView {
        AuthorityResultView::AdmittedV2 {
            mode: admission.mode,
            signal_epoch: admission.signal_epoch,
            admission_token: admission.admission_token,
            is_initiator: admission.is_initiator,
        }
    }
}

impl View for BrowserInput {
    type V = BrowserInputView;

    open spec fn view(&self) -> BrowserInputView {
        match self {
            BrowserInput::Connected { connection_id } => BrowserInputView::Connected {
                connection_id: *connection_id,
            },
            BrowserInput::Text { connection_id, text, now } => BrowserInputView::Text {
                connection_id: *connection_id,
                text: text@,
                now: *now,
            },
            BrowserInput::Disconnected { connection_id, now } => BrowserInputView::Disconnected {
                connection_id: *connection_id,
                now: *now,
            },
        }
    }
}

impl View for BrowserOutput {
    type V = BrowserOutputView;

    open spec fn view(&self) -> BrowserOutputView {
        match self {
            BrowserOutput::Text { connection_id, text } => BrowserOutputView::Text {
                connection_id: *connection_id,
                text: text@,
            },
            BrowserOutput::Close { connection_id } => BrowserOutputView::Close {
                connection_id: *connection_id,
            },
            BrowserOutput::Sfu(output) => BrowserOutputView::Sfu(output@),
        }
    }
}

impl View for AuthorityOperation {
    type V = AuthorityOperationView;

    open spec fn view(&self) -> AuthorityOperationView {
        match self {
            AuthorityOperation::Admit { roomid, clientid, is_loopback, now } => {
                AuthorityOperationView::Admit {
                    roomid: roomid@,
                    clientid: clientid@,
                    is_loopback: *is_loopback,
                    now: *now,
                }
            },
            AuthorityOperation::Remove { roomid, clientid } => AuthorityOperationView::Remove {
                roomid: roomid@,
                clientid: clientid@,
            },
            AuthorityOperation::Occupancy { roomid } => AuthorityOperationView::Occupancy {
                roomid: roomid@,
            },
            AuthorityOperation::Inject { roomid, clientid, msg, now } => {
                AuthorityOperationView::Inject {
                    roomid: roomid@,
                    clientid: clientid@,
                    msg: msg@,
                    now: *now,
                }
            },
            AuthorityOperation::AdmitV2 { room_id, client_id, admission_token, now } => {
                AuthorityOperationView::AdmitV2 {
                    room_id: *room_id,
                    client_id: *client_id,
                    admission_token: admission_token@,
                    now: *now,
                }
            },
            AuthorityOperation::RemoveV2 { room_id, client_id, admission_token } => {
                AuthorityOperationView::RemoveV2 {
                    room_id: *room_id,
                    client_id: *client_id,
                    admission_token: admission_token@,
                }
            },
            AuthorityOperation::OccupancyV2 { room_id } => AuthorityOperationView::OccupancyV2 {
                room_id: *room_id,
            },
            AuthorityOperation::Status => AuthorityOperationView::Status,
        }
    }
}

impl View for AuthorityCommand {
    type V = AuthorityCommandView;

    open spec fn view(&self) -> AuthorityCommandView {
        AuthorityCommandView { request_id: self.request_id, operation: self.operation@ }
    }
}

impl View for AuthorityResult {
    type V = AuthorityResultView;

    open spec fn view(&self) -> AuthorityResultView {
        match self {
            AuthorityResult::Admitted { is_initiator, messages } => AuthorityResultView::Admitted {
                is_initiator: *is_initiator,
                messages: seqs::views(messages@),
            },
            AuthorityResult::Removed => AuthorityResultView::Removed,
            AuthorityResult::Occupancy { count } => AuthorityResultView::Occupancy {
                count: *count as nat,
            },
            AuthorityResult::Injected => AuthorityResultView::Injected,
            AuthorityResult::AdmittedV2 { mode, signal_epoch, admission_token, is_initiator } => {
                AuthorityResultView::AdmittedV2 {
                    mode: *mode,
                    signal_epoch: *signal_epoch,
                    admission_token: admission_token@,
                    is_initiator: *is_initiator,
                }
            },
            AuthorityResult::RemovedV2 => AuthorityResultView::RemovedV2,
            AuthorityResult::OccupancyV2 { count, mode } => AuthorityResultView::OccupancyV2 {
                count: *count as nat,
                mode: *mode,
            },
            AuthorityResult::Status(status) => AuthorityResultView::Status(*status),
            AuthorityResult::Error { result } => AuthorityResultView::Error { result: result@ },
        }
    }
}

impl View for AuthorityResponse {
    type V = AuthorityResponseView;

    open spec fn view(&self) -> AuthorityResponseView {
        AuthorityResponseView { request_id: self.request_id, result: self.result@ }
    }
}

impl Clone for BrowserInput {
    fn clone(&self) -> (r: BrowserInput)
        ensures
            r@ == self@,
    {
        match self {
            BrowserInput::Connected { connection_id } => BrowserInput::Connected {
                connection_id: *connection_id,
            },
            BrowserInput::Text { connection_id, text, now } => BrowserInput::Text {
                connection_id: *connection_id,
                text: text.clone(),
                now: *now,
            },
            BrowserInput::Disconnected { connection_id, now } => BrowserInput::Disconnected {
                connection_id: *connection_id,
                now: *now,
            },
        }
    }
}

impl Clone for BrowserOutput {
    fn clone(&self) -> (r: BrowserOutput)
        ensures
            r@ == self@,
    {
        match self {
            BrowserOutput::Text { connection_id, text } => BrowserOutput::Text {
                connection_id: *connection_id,
                text: text.clone(),
            },
            BrowserOutput::Close { connection_id } => BrowserOutput::Close {
                connection_id: *connection_id,
            },
            BrowserOutput::Sfu(output) => BrowserOutput::Sfu(output.clone()),
        }
    }
}

impl Clone for AuthorityOperation {
    fn clone(&self) -> (r: AuthorityOperation)
        ensures
            r@ == self@,
    {
        match self {
            AuthorityOperation::Admit { roomid, clientid, is_loopback, now } => {
                AuthorityOperation::Admit {
                    roomid: roomid.clone(),
                    clientid: clientid.clone(),
                    is_loopback: *is_loopback,
                    now: *now,
                }
            },
            AuthorityOperation::Remove { roomid, clientid } => AuthorityOperation::Remove {
                roomid: roomid.clone(),
                clientid: clientid.clone(),
            },
            AuthorityOperation::Occupancy { roomid } => AuthorityOperation::Occupancy {
                roomid: roomid.clone(),
            },
            AuthorityOperation::Inject { roomid, clientid, msg, now } => {
                AuthorityOperation::Inject {
                    roomid: roomid.clone(),
                    clientid: clientid.clone(),
                    msg: msg.clone(),
                    now: *now,
                }
            },
            AuthorityOperation::AdmitV2 { room_id, client_id, admission_token, now } => {
                AuthorityOperation::AdmitV2 {
                    room_id: *room_id,
                    client_id: *client_id,
                    admission_token: admission_token.clone(),
                    now: *now,
                }
            },
            AuthorityOperation::RemoveV2 { room_id, client_id, admission_token } => {
                AuthorityOperation::RemoveV2 {
                    room_id: *room_id,
                    client_id: *client_id,
                    admission_token: admission_token.clone(),
                }
            },
            AuthorityOperation::OccupancyV2 { room_id } => AuthorityOperation::OccupancyV2 {
                room_id: *room_id,
            },
            AuthorityOperation::Status => AuthorityOperation::Status,
        }
    }
}

impl Clone for AuthorityCommand {
    fn clone(&self) -> (r: AuthorityCommand)
        ensures
            r@ == self@,
    {
        AuthorityCommand { request_id: self.request_id, operation: self.operation.clone() }
    }
}

impl Clone for AuthorityResult {
    fn clone(&self) -> (r: AuthorityResult)
        ensures
            r@ == self@,
    {
        match self {
            AuthorityResult::Admitted { is_initiator, messages } => AuthorityResult::Admitted {
                is_initiator: *is_initiator,
                messages: seqs::copy_texts(messages),
            },
            AuthorityResult::Removed => AuthorityResult::Removed,
            AuthorityResult::Occupancy { count } => AuthorityResult::Occupancy { count: *count },
            AuthorityResult::Injected => AuthorityResult::Injected,
            AuthorityResult::AdmittedV2 { mode, signal_epoch, admission_token, is_initiator } => {
                AuthorityResult::AdmittedV2 {
                    mode: *mode,
                    signal_epoch: *signal_epoch,
                    admission_token: admission_token.clone(),
                    is_initiator: *is_initiator,
                }
            },
            AuthorityResult::RemovedV2 => AuthorityResult::RemovedV2,
            AuthorityResult::OccupancyV2 { count, mode } => AuthorityResult::OccupancyV2 {
                count: *count,
                mode: *mode,
            },
            AuthorityResult::Status(status) => AuthorityResult::Status(*status),
            AuthorityResult::Error { result } => AuthorityResult::Error { result: result.clone() },
        }
    }
}

impl Clone for AuthorityResponse {
    fn clone(&self) -> (r: AuthorityResponse)
        ensures
            r@ == self@,
    {
        AuthorityResponse { request_id: self.request_id, result: self.result.clone() }
    }
}

enum Session {
    Connected,
    RegisteredV1 { roomid: RoomId, clientid: ClientId },
    RegisteredV2 { room_id: v2::RoomId, client_id: v2::ClientId },
}

impl View for Session {
    type V = model::Session;

    closed spec fn view(&self) -> model::Session {
        match self {
            Session::Connected => model::Session::Connected,
            Session::RegisteredV1 { roomid, clientid } => model::Session::RegisteredV1 {
                roomid: roomid@,
                clientid: clientid@,
            },
            Session::RegisteredV2 { room_id, client_id } => model::Session::RegisteredV2 {
                room_id: *room_id,
                client_id: *client_id,
            },
        }
    }
}

impl Clone for Session {
    fn clone(&self) -> (r: Session)
        ensures
            r@ == self@,
    {
        match self {
            Session::Connected => Session::Connected,
            Session::RegisteredV1 { roomid, clientid } => Session::RegisteredV1 {
                roomid: roomid.clone(),
                clientid: clientid.clone(),
            },
            Session::RegisteredV2 { room_id, client_id } => Session::RegisteredV2 {
                room_id: *room_id,
                client_id: *client_id,
            },
        }
    }
}

/// Owns all mutable room state. Drivers must serialize inputs through this value.
pub struct Collider {
    rooms: RoomTable,
    v2_rooms: V2RoomTable,
    sessions: OrdMap<ConnectionId, Session>,
    connections: OrdMap<(RoomId, ClientId), ConnectionId>,
    v2_connections: OrdMap<(v2::RoomId, v2::ClientId), ConnectionId>,
    browser_outputs: VecDeque<BrowserOutput>,
    authority_responses: VecDeque<AuthorityResponse>,
    total_websocket_connections: u64,
    websocket_errors: u64,
}

impl View for Collider {
    type V = model::State;

    closed spec fn view(&self) -> model::State {
        model::State {
            rooms: self.rooms@,
            v2_rooms: self.v2_rooms@,
            sessions: self.sessions@,
            connections: self.connections@,
            v2_connections: self.v2_connections@,
            browser_outputs: seqs::views(self.browser_outputs@),
            authority_responses: seqs::views(self.authority_responses@),
            total_websocket_connections: self.total_websocket_connections,
            websocket_errors: self.websocket_errors,
        }
    }
}

fn room_mode_name(mode: v2::RoomMode) -> (r: &'static str)
    ensures
        r@ == model::mode_name(mode),
{
    match mode {
        v2::RoomMode::P2p => "p2p",
        v2::RoomMode::Upgrading => "upgrading",
        v2::RoomMode::Sfu => "sfu",
        v2::RoomMode::Failed => "failed",
    }
}

fn admitted_v2(admission: v2::Admission) -> (r: AuthorityResult)
    ensures
        r@ == AuthorityResultView::admitted_v2(admission@),
{
    AuthorityResult::AdmittedV2 {
        mode: admission.mode,
        signal_epoch: admission.signal_epoch,
        admission_token: admission.admission_token,
        is_initiator: admission.is_initiator,
    }
}

impl Collider {
    pub fn new(register_timeout: Duration) -> (r: Collider)
        ensures
            r@ == model::State::initial(register_timeout),
            r@.inv(),
    {
        proof {
            laws::law_new_authority_has_inv(register_timeout);
        }
        Collider {
            rooms: RoomTable::new(register_timeout),
            v2_rooms: V2RoomTable::new(register_timeout),
            sessions: OrdMap::new(),
            connections: OrdMap::new(),
            v2_connections: OrdMap::new(),
            browser_outputs: VecDeque::new(),
            authority_responses: VecDeque::new(),
            total_websocket_connections: 0,
            websocket_errors: 0,
        }
    }

    /// Override the SFU-to-P2P downgrade dwell (default 2 seconds). Applies to V2 rooms
    /// only; V1 has no SFU mode.
    pub fn set_downgrade_dwell(&mut self, dwell: Duration)
        ensures
            final(self)@ == (model::State {
                v2_rooms: v2::model::Table { downgrade_dwell: dwell, ..old(self)@.v2_rooms },
                ..old(self)@
            }),
            old(self)@.inv() ==> final(self)@.inv(),
    {
        self.v2_rooms.set_downgrade_dwell(dwell);
    }

    /// The connection that a V1 client is registered with, if any.
    pub fn connection_of(&self, roomid: &RoomId, clientid: &ClientId) -> (r: Option<ConnectionId>)
        ensures
            r == if self@.connections.contains_key((roomid@, clientid@)) {
                Some(self@.connections[(roomid@, clientid@)])
            } else {
                None
            },
    {
        let key = (roomid.clone(), clientid.clone());
        match self.connections.get(&key) {
            Some(connection_id) => Some(*connection_id),
            None => None,
        }
    }

    pub fn handle_read(&mut self, input: BrowserInput) -> (r: Result<(), String>)
        ensures
            (final(self)@, seqs::result_view(r)) == old(self)@.handle_read(input@),
            old(self)@.inv() && old(self)@.is_fresh(input@) ==> final(self)@.inv(),
    {
        proof {
            if self@.inv() && self@.is_fresh(input@) {
                laws::law_browsers_keep_inv(self@, input@);
            }
        }
        match input {
            BrowserInput::Connected { connection_id } => {
                self.sessions.insert(connection_id, Session::Connected);
                Ok(())
            },
            BrowserInput::Text { connection_id, text, now } => {
                self.handle_browser_text(connection_id, text, now)
            },
            BrowserInput::Disconnected { connection_id, now } => {
                self.disconnect(connection_id, now);
                Ok(())
            },
        }
    }

    fn handle_browser_text(
        &mut self,
        connection_id: ConnectionId,
        text: String,
        now: Instant,
    ) -> (r: Result<(), String>)
        ensures
            (final(self)@, seqs::result_view(r)) == old(self)@.handle_frame(
                connection_id,
                WsClientMsgView::read(text@),
                now,
            ),
    {
        let frame = WsClientMsg::from_text(text.as_str());
        self.handle_frame(connection_id, frame, now)
    }

    /// Handles a frame of a browser, or the reason why it could not be read.
    pub fn handle_frame(
        &mut self,
        connection_id: ConnectionId,
        frame: Result<WsClientMsg, String>,
        now: Instant,
    ) -> (r: Result<(), String>)
        ensures
            (final(self)@, seqs::result_view(r)) == old(self)@.handle_frame(
                connection_id,
                seqs::result_view(frame),
                now,
            ),
            old(self)@.inv() ==> final(self)@.inv(),
    {
        proof {
            if self@.inv() {
                laws::law_frame_keeps_inv(self@, connection_id, seqs::result_view(frame), now);
            }
        }
        let msg = match frame {
            Ok(msg) => msg,
            Err(error) => {
                let mut reason = "websocket.JSON.Receive error: ".to_string();
                reason.append(error.as_str());
                self.fail_connection(connection_id, reason.as_str());
                return Ok(());
            },
        };
        let register = "register".to_string();
        let send = "send".to_string();
        if msg.cmd == register {
            match msg.ver {
                Some(2) => self.register_v2(connection_id, msg),
                None => self.register_v1(connection_id, msg, now),
                Some(_) => self.fail_connection(connection_id, "INVALID_VERSION"),
            }
            Ok(())
        } else if msg.cmd == send {
            self.send(connection_id, msg, now)
        } else {
            self.fail_connection(connection_id, "Invalid message: unexpected 'cmd'");
            Ok(())
        }
    }

    fn is_registered(&self, connection_id: ConnectionId) -> (r: bool)
        ensures
            r == self@.is_registered(connection_id),
    {
        match self.sessions.get(&connection_id) {
            Some(Session::RegisteredV1 { .. }) => true,
            Some(Session::RegisteredV2 { .. }) => true,
            _ => false,
        }
    }

    fn register_v1(&mut self, connection_id: ConnectionId, msg: WsClientMsg, now: Instant)
        ensures
            final(self)@ == old(self)@.register_v1(connection_id, msg@, now),
    {
        if self.is_registered(connection_id) {
            self.fail_connection(connection_id, "Duplicated register request");
            return;
        }
        if msg.roomid.as_str().is_empty() || msg.clientid.as_str().is_empty() {
            self.fail_connection(
                connection_id,
                "Invalid register request: missing 'clientid' or 'roomid'",
            );
            return;
        }
        match self.rooms.register(now, &msg.roomid, &msg.clientid) {
            Ok(_) => {
                self.sessions.insert(
                    connection_id,
                    Session::RegisteredV1 {
                        roomid: msg.roomid.clone(),
                        clientid: msg.clientid.clone(),
                    },
                );
                self.connections.insert((msg.roomid, msg.clientid), connection_id);
                self.total_websocket_connections =
                    self.total_websocket_connections.saturating_add(1);
                self.drain_room_writes();
            },
            Err(error) => self.fail_connection(connection_id, error.as_str()),
        }
    }

    fn register_v2(&mut self, connection_id: ConnectionId, msg: WsClientMsg)
        ensures
            final(self)@ == old(self)@.register_v2(connection_id, msg@),
    {
        if self.is_registered(connection_id) {
            self.fail_connection(connection_id, "Duplicated register request");
            return;
        }
        let room_id: v2::RoomId = match text::canonical_u64(msg.roomid.as_str()) {
            Some(value) => value,
            None => {
                self.fail_connection(connection_id, "INVALID_ROOM_ID");
                return;
            },
        };
        let client_id: v2::ClientId = match text::canonical_u64(msg.clientid.as_str()) {
            Some(value) => value,
            None => {
                self.fail_connection(connection_id, "INVALID_CLIENT_ID");
                return;
            },
        };
        if msg.token.as_str().is_empty() {
            self.fail_connection(connection_id, "UNAUTHORIZED");
            return;
        }
        match self.v2_rooms.register(room_id, client_id, msg.token.as_str()) {
            Ok(registration) => {
                self.complete_v2_registration(connection_id, room_id, client_id, registration);
            },
            Err(error) => self.fail_connection(connection_id, error.as_str()),
        }
    }

    fn complete_v2_registration(
        &mut self,
        connection_id: ConnectionId,
        room_id: v2::RoomId,
        client_id: v2::ClientId,
        registration: v2::Registration,
    )
        ensures
            final(self)@ == old(self)@.registered_v2(
                connection_id,
                room_id,
                client_id,
                registration@,
            ),
    {
        self.sessions.insert(connection_id, Session::RegisteredV2 { room_id, client_id });
        self.v2_connections.insert((room_id, client_id), connection_id);
        self.total_websocket_connections = self.total_websocket_connections.saturating_add(1);
        // The authoritative snapshot must precede any queued SDP or ICE messages.
        let snapshot = V2Registered {
            control: "registered",
            roomid: text::to_decimal(room_id),
            epoch: text::to_decimal(registration.signal_epoch),
            mode: room_mode_name(registration.mode),
            is_initiator: registration.is_initiator,
        };
        self.browser_outputs.push_back(
            BrowserOutput::Text { connection_id, text: snapshot.to_wire() },
        );
        let ghost start = self@;
        let ghost queued = registration@.queued_messages;
        let ghost g = model::relay_output(connection_id);
        let mut i: usize = 0;
        assert(start.browser_outputs + queued.take(0).map_values(g) =~= start.browser_outputs);
        while i < registration.queued_messages.len()
            invariant
                i <= registration.queued_messages@.len(),
                queued == seqs::views(registration.queued_messages@),
                g == model::relay_output(connection_id),
                self@ == start.with_outputs(queued.take(i as int).map_values(g)),
            decreases registration.queued_messages@.len() - i,
        {
            self.browser_outputs.push_back(
                BrowserOutput::Text {
                    connection_id,
                    text: messages::server_msg(registration.queued_messages[i].as_str()),
                },
            );
            assert(queued.take(i + 1).map_values(g) =~= queued.take(i as int).map_values(g).push(
                g(queued[i as int]),
            ));
            i = i + 1;
            assert(self@.browser_outputs =~= start.browser_outputs + queued.take(
                i as int,
            ).map_values(g));
        }
        assert(queued.take(i as int) =~= queued);
    }

    fn send(&mut self, connection_id: ConnectionId, msg: WsClientMsg, now: Instant) -> (r: Result<
        (),
        String,
    >)
        ensures
            (final(self)@, seqs::result_view(r)) == old(self)@.send(connection_id, msg@, now),
    {
        let session = match self.sessions.get(&connection_id) {
            Some(session) => session.clone(),
            None => {
                self.fail_connection(connection_id, "Client not registered");
                return Ok(());
            },
        };
        if msg.msg.as_str().is_empty() {
            self.fail_connection(connection_id, "Invalid send request: missing 'msg'");
            return Ok(());
        }
        match session {
            Session::RegisteredV1 { roomid, clientid } => self.send_v1(
                Message { roomid, clientid, msg: msg.msg },
                now,
            ),
            Session::RegisteredV2 { room_id, client_id } => self.send_v2(
                room_id,
                client_id,
                msg.epoch,
                msg.msg,
            ),
            Session::Connected => {
                self.fail_connection(connection_id, "Client not registered");
                Ok(())
            },
        }
    }

    fn send_v1(&mut self, message: Message, now: Instant) -> (r: Result<(), String>)
        ensures
            (final(self)@, seqs::result_view(r)) == old(self)@.send_v1(message@, now),
    {
        let _ = self.rooms.handle_read(message);
        match self.rooms.relay_reads(now) {
            Ok(_) => {
                self.drain_room_writes();
                Ok(())
            },
            Err(e) => Err(e),
        }
    }

    fn send_v2(
        &mut self,
        room_id: v2::RoomId,
        client_id: v2::ClientId,
        epoch: Option<String>,
        message: String,
    ) -> (r: Result<(), String>)
        ensures
            (final(self)@, seqs::result_view(r)) == old(self)@.send_v2(
                room_id,
                client_id,
                seqs::opt_view(epoch),
                message@,
            ),
    {
        let canonical = match &epoch {
            Some(epoch) => text::canonical_u64(epoch.as_str()),
            None => None,
        };
        let signal_epoch: u64 = match canonical {
            Some(signal_epoch) => signal_epoch,
            None => {
                return Ok(());
            },
        };
        match self.v2_rooms.send(room_id, client_id, signal_epoch, message) {
            Err(e) => Err(e),
            Ok(v2::SendResult::P2p(Some(delivery))) => {
                self.deliver(delivery);
                self.drain_v2_actions();
                Ok(())
            },
            Ok(_) => {
                self.drain_v2_actions();
                Ok(())
            },
        }
    }

    fn deliver(&mut self, delivery: v2::Delivery)
        ensures
            final(self)@ == old(self)@.with_delivery(delivery@),
    {
        let key = (delivery.room_id, delivery.client_id);
        if let Some(connection_id) = self.v2_connections.get(&key) {
            self.browser_outputs.push_back(
                BrowserOutput::Text {
                    connection_id: *connection_id,
                    text: messages::server_msg(delivery.message.as_str()),
                },
            );
        }
    }

    fn disconnect(&mut self, connection_id: ConnectionId, now: Instant)
        ensures
            final(self)@ == old(self)@.disconnect(connection_id, now),
    {
        let session = match self.sessions.remove(&connection_id) {
            Some(session) => session,
            None => {
                assert(self@ =~= old(self)@);
                return;
            },
        };
        match session {
            Session::RegisteredV1 { roomid, clientid } => {
                let current = self.connection_of(&roomid, &clientid);
                if current == Some(connection_id) {
                    let key = (roomid, clientid);
                    self.connections.remove(&key);
                    self.rooms.deregister(now, &key.0, &key.1);
                }
            },
            Session::RegisteredV2 { room_id, client_id } => {
                let key = (room_id, client_id);
                let current = match self.v2_connections.get(&key) {
                    Some(current) => *current == connection_id,
                    None => false,
                };
                if current {
                    self.v2_connections.remove(&key);
                    self.v2_rooms.deregister(now, room_id, client_id);
                    // An SFU disconnect issues an immediate `Leave` command; flush it to
                    // the worker so its forwarded media stops right away.
                    self.drain_v2_actions();
                }
            },
            Session::Connected => {},
        }
    }

    fn fail_connection(&mut self, connection_id: ConnectionId, error: &str)
        ensures
            final(self)@ == old(self)@.failed(connection_id, error@),
    {
        self.websocket_errors = self.websocket_errors.saturating_add(1);
        self.browser_outputs.push_back(
            BrowserOutput::Text { connection_id, text: messages::server_err(error) },
        );
        self.browser_outputs.push_back(BrowserOutput::Close { connection_id });
    }

    fn close_client_connection(&mut self, roomid: &RoomId, clientid: &ClientId)
        ensures
            final(self)@ == old(self)@.with_client_closed(roomid@, clientid@),
    {
        let key = (roomid.clone(), clientid.clone());
        match self.connections.remove(&key) {
            Some(connection_id) => {
                self.sessions.remove(&connection_id);
                self.browser_outputs.push_back(BrowserOutput::Close { connection_id });
            },
            None => {
                assert(self@ =~= old(self)@);
            },
        }
    }

    fn close_v2_client_connection(&mut self, room_id: v2::RoomId, client_id: v2::ClientId)
        ensures
            final(self)@ == old(self)@.with_v2_client_closed(room_id, client_id),
    {
        let key = (room_id, client_id);
        match self.v2_connections.remove(&key) {
            Some(connection_id) => {
                self.sessions.remove(&connection_id);
                self.browser_outputs.push_back(BrowserOutput::Close { connection_id });
            },
            None => {
                assert(self@ =~= old(self)@);
            },
        }
    }

    fn push_promotion(&mut self, promotion: v2::Promotion)
        ensures
            final(self)@ == old(self)@.with_promotion(promotion),
    {
        let key = (promotion.room_id, promotion.client_id);
        if let Some(connection_id) = self.v2_connections.get(&key) {
            let promoted = V2Promoted {
                control: "p2p-promote",
                roomid: text::to_decimal(promotion.room_id),
                epoch: text::to_decimal(promotion.signal_epoch),
                is_initiator: true,
            };
            self.browser_outputs.push_back(
                BrowserOutput::Text { connection_id: *connection_id, text: promoted.to_wire() },
            );
        }
    }

    fn drain_room_writes(&mut self)
        ensures
            final(self)@ == old(self)@.with_room_writes_drained(),
    {
        let ghost start = self@;
        let ghost p = model::is_deliverable(start.connections);
        let ghost g = model::delivered(start.connections);
        let ghost all = start.rooms.writes();
        let ghost mut done: int = 0;
        proof {
            seqs::lemma_filter_ends(all, p);
            assert(all.take(0).filter(p).map_values(g) =~= Seq::empty());
            assert(all.skip(0) =~= all);
            assert(self@.browser_outputs =~= start.browser_outputs + all.take(0).filter(
                p,
            ).map_values(g));
        }
        loop
            invariant
                start == old(self)@,
                p == model::is_deliverable(start.connections),
                g == model::delivered(start.connections),
                all == start.rooms.writes(),
                0 <= done <= all.len(),
                self@.rooms.writes() == all.skip(done),
                self@.rooms.without_writes() == start.rooms.without_writes(),
                self@ == (model::State { rooms: self@.rooms, ..start }).with_outputs(
                    all.take(done).filter(p).map_values(g),
                ),
            decreases all.len() - done,
        {
            proof {
                room_table::lemma_finite(self.rooms);
                room_table::lemma_poll_write(self@.rooms);
            }
            let ghost before = self@;
            match self.rooms.poll_write() {
                None => {
                    proof {
                        assert(all.skip(done).len() == 0);
                        assert(all.take(done) =~= all);
                    }
                    return;
                },
                Some(message) => {
                    proof {
                        assert(before.rooms.writes()[0] == message@);
                        assert(all[done] == message@);
                        seqs::lemma_filter_take(all, p, done);
                        assert(before.rooms.writes().skip(1) =~= self@.rooms.writes());
                        assert(all.skip(done).skip(1) =~= all.skip(done + 1));
                        let kept = all.take(done).filter(p);
                        if p(message@) {
                            assert(kept.push(message@).map_values(g) =~= kept.map_values(g).push(
                                g(message@),
                            ));
                        }
                    }
                    let key = (message.roomid, message.clientid);
                    if let Some(connection_id) = self.connections.get(&key) {
                        self.browser_outputs.push_back(
                            BrowserOutput::Text {
                                connection_id: *connection_id,
                                text: messages::server_msg(message.msg.as_str()),
                            },
                        );
                    }
                    proof {
                        done = done + 1;
                        assert(self@.browser_outputs =~= start.browser_outputs + all.take(
                            done,
                        ).filter(p).map_values(g));
                    }
                },
            }
        }
    }

    /// Handles a command of a room server.
    pub fn handle_write(&mut self, command: AuthorityCommand) -> (r: Result<(), String>)
        ensures
            r is Ok,
            final(self)@ == old(self)@.handle_authority(command@),
            old(self)@.inv() ==> final(self)@.inv(),
    {
        proof {
            if self@.inv() {
                laws::law_room_servers_keep_inv(self@, command@);
            }
        }
        self.handle_authority(command);
        Ok(())
    }

    fn handle_authority(&mut self, command: AuthorityCommand)
        ensures
            final(self)@ == old(self)@.handle_authority(command@),
    {
        let request_id: RequestId = command.request_id;
        let result = match command.operation {
            AuthorityOperation::Admit { roomid, clientid, is_loopback, now } => {
                match self.rooms.join(now, &roomid, &clientid, is_loopback) {
                    Ok((is_initiator, messages)) => AuthorityResult::Admitted {
                        is_initiator,
                        messages,
                    },
                    Err(result) => AuthorityResult::Error { result },
                }
            },
            AuthorityOperation::Remove { roomid, clientid } => {
                self.close_client_connection(&roomid, &clientid);
                self.rooms.leave(&roomid, &clientid);
                AuthorityResult::Removed
            },
            AuthorityOperation::Occupancy { roomid } => AuthorityResult::Occupancy {
                count: self.rooms.occupancy(&roomid),
            },
            AuthorityOperation::Inject { roomid, clientid, msg, now } => {
                match self.rooms.save_or_send(now, &roomid, &clientid, msg) {
                    Ok(_) => {
                        self.drain_room_writes();
                        AuthorityResult::Injected
                    },
                    Err(result) => AuthorityResult::Error { result },
                }
            },
            AuthorityOperation::AdmitV2 { room_id, client_id, admission_token, now } => {
                match self.v2_rooms.admit_client(
                    request_id,
                    now,
                    room_id,
                    client_id,
                    admission_token,
                ) {
                    Ok(v2::AdmissionResult::Complete(admission)) => admitted_v2(admission),
                    Ok(v2::AdmissionResult::Pending) => {
                        self.drain_v2_actions();
                        return;
                    },
                    Err(result) => AuthorityResult::Error { result },
                }
            },
            AuthorityOperation::RemoveV2 { room_id, client_id, admission_token } => {
                match self.v2_rooms.remove(
                    request_id,
                    room_id,
                    client_id,
                    admission_token.as_str(),
                ) {
                    Ok(v2::RemovalResult::Complete(promotion)) => {
                        self.close_v2_client_connection(room_id, client_id);
                        if let Some(promotion) = promotion {
                            self.push_promotion(promotion);
                        }
                        AuthorityResult::RemovedV2
                    },
                    Ok(v2::RemovalResult::Pending) => {
                        self.drain_v2_actions();
                        return;
                    },
                    Err(result) => AuthorityResult::Error { result },
                }
            },
            AuthorityOperation::OccupancyV2 { room_id } => {
                let (count, mode) = self.v2_rooms.occupancy(room_id);
                AuthorityResult::OccupancyV2 { count, mode }
            },
            AuthorityOperation::Status => AuthorityResult::Status(self.status()),
        };
        self.authority_responses.push_back(AuthorityResponse { request_id, result });
        self.drain_v2_actions();
    }

    fn status(&self) -> (r: StatusSnapshot)
        ensures
            r == self@.status(),
    {
        StatusSnapshot {
            rooms: self.rooms.room_count(),
            v2_rooms: self.v2_rooms.room_count(),
            clients: self.rooms.client_count().saturating_add(self.v2_rooms.member_count()),
            websocket_connections: self.rooms.ws_count().saturating_add(
                self.v2_rooms.registered_count(),
            ),
            total_websocket_connections: self.total_websocket_connections,
            websocket_errors: self.websocket_errors,
            connected_sfu_instances: self.v2_rooms.connected_sfu_count(),
            ready_sfu_instances: self.v2_rooms.ready_sfu_count(),
        }
    }

    pub fn handle_sfu_input(&mut self, input: sfu::Input) -> (r: Result<(), String>)
        ensures
            (final(self)@, seqs::result_view(r)) == old(self)@.handle_sfu_input(input@),
            old(self)@.inv() ==> final(self)@.inv(),
    {
        proof {
            if self@.inv() {
                laws::law_workers_keep_inv(self@, input@);
            }
        }
        match self.v2_rooms.handle_sfu_input(input) {
            Ok(_) => {
                self.drain_v2_actions();
                Ok(())
            },
            Err(e) => Err(e),
        }
    }

    fn drain_v2_actions(&mut self)
        ensures
            final(self)@ == old(self)@.with_actions_drained(),
    {
        let ghost start = self@;
        let ghost all = start.v2_rooms.actions;
        let ghost base = model::State {
            v2_rooms: v2::model::Table { actions: Seq::empty(), ..start.v2_rooms },
            ..start
        };
        let ghost mut done: int = 0;
        assert(all.skip(0) =~= all);
        loop
            invariant
                start == old(self)@,
                all == start.v2_rooms.actions,
                base == (model::State {
                    v2_rooms: v2::model::Table { actions: Seq::empty(), ..start.v2_rooms },
                    ..start
                }),
                0 <= done <= all.len(),
                base.performed(all.take(done)).v2_rooms == base.v2_rooms,
                self@ == (model::State {
                    v2_rooms: v2::model::Table { actions: all.skip(done), ..start.v2_rooms },
                    ..base.performed(all.take(done))
                }),
            decreases all.len() - done,
        {
            match self.v2_rooms.poll_action() {
                None => {
                    proof {
                        assert(all.take(done) =~= all);
                        assert(all.skip(done) =~= Seq::empty());
                    }
                    return;
                },
                Some(action) => {
                    proof {
                        assert(all.skip(done)[0] == all[done]);
                        assert(all.skip(done).skip(1) =~= all.skip(done + 1));
                        assert(all.take(done + 1).drop_last() =~= all.take(done));
                        assert(all.take(done + 1).last() == all[done]);
                        done = done + 1;
                    }
                    self.perform(action);
                },
            }
        }
    }

    fn perform(&mut self, action: v2::Action)
        ensures
            final(self)@ == old(self)@.after_action(action@),
    {
        match action {
            v2::Action::Sfu(output) => {
                self.browser_outputs.push_back(BrowserOutput::Sfu(output));
            },
            v2::Action::AdmissionCompleted { authority_request_id, result } => {
                let result = match result {
                    Ok(admission) => admitted_v2(admission),
                    Err(result) => AuthorityResult::Error { result },
                };
                self.authority_responses.push_back(
                    AuthorityResponse { request_id: authority_request_id, result },
                );
            },
            v2::Action::RemovalCompleted { authority_request_id, room_id, client_id, result } => {
                let result = match result {
                    Ok(_) => {
                        self.close_v2_client_connection(room_id, client_id);
                        AuthorityResult::RemovedV2
                    },
                    Err(result) => AuthorityResult::Error { result },
                };
                self.authority_responses.push_back(
                    AuthorityResponse { request_id: authority_request_id, result },
                );
            },
            v2::Action::Upgraded { room_id, signal_epoch, existing_clients } => {
                self.notify(Notice::Upgrade { signal_epoch }, room_id, &existing_clients);
            },
            v2::Action::Downgraded { room_id, signal_epoch, initiator_client_id, clients } => {
                self.notify(
                    Notice::Downgrade { signal_epoch, initiator_client_id },
                    room_id,
                    &clients,
                );
            },
            v2::Action::Deliver(delivery) => self.deliver(delivery),
            v2::Action::Promoted(promotion) => self.push_promotion(promotion),
            v2::Action::RoomFailed { room_id, clients, reason } => {
                self.notify(Notice::Failure { reason }, room_id, &clients);
            },
        }
    }

    /// Sends a notice to those of the clients that have a connection.
    fn notify(&mut self, notice: Notice, room_id: v2::RoomId, clients: &Vec<v2::ClientId>)
        ensures
            final(self)@ == old(self)@.with_notice(room_id, clients@, notice.texts(room_id)),
    {
        let ghost start = self@;
        let ghost p = model::is_reachable(start.v2_connections, room_id);
        let ghost g = model::addressed(start.v2_connections, room_id, notice.texts(room_id));
        proof {
            seqs::lemma_filter_ends(clients@, p);
            assert(clients@.take(0).filter(p).map_values(g) =~= Seq::empty());
            assert(self@.browser_outputs =~= start.browser_outputs + clients@.take(0).filter(
                p,
            ).map_values(g));
        }
        let mut i: usize = 0;
        while i < clients.len()
            invariant
                i <= clients@.len(),
                p == model::is_reachable(start.v2_connections, room_id),
                g == model::addressed(start.v2_connections, room_id, notice.texts(room_id)),
                self@ == start.with_outputs(clients@.take(i as int).filter(p).map_values(g)),
            decreases clients@.len() - i,
        {
            proof {
                seqs::lemma_filter_take(clients@, p, i as int);
                let kept = clients@.take(i as int).filter(p);
                let c = clients@[i as int];
                assert(kept.push(c).map_values(g) =~= kept.map_values(g).push(g(c)));
            }
            let key = (room_id, clients[i]);
            if let Some(connection_id) = self.v2_connections.get(&key) {
                self.browser_outputs.push_back(
                    BrowserOutput::Text {
                        connection_id: *connection_id,
                        text: notice.text(room_id, clients[i]),
                    },
                );
            }
            i = i + 1;
            assert(self@.browser_outputs =~= start.browser_outputs + clients@.take(
                i as int,
            ).filter(p).map_values(g));
        }
        assert(clients@.take(i as int) =~= clients@);
    }

    /// Nothing is read through the authority itself.
    pub fn poll_read(&mut self) -> (r: Option<std::convert::Infallible>)
        ensures
            r is None,
            final(self)@ == old(self)@,
    {
        None
    }

    /// The next output for a browser or a worker.
    pub fn poll_write(&mut self) -> (r: Option<BrowserOutput>)
        ensures
            match r {
                Some(output) => old(self)@.browser_outputs.len() > 0 && output@
                    == old(self)@.browser_outputs[0] && final(self)@ == (model::State {
                    browser_outputs: old(self)@.browser_outputs.skip(1),
                    ..old(self)@
                }),
                None => old(self)@.browser_outputs.len() == 0 && final(self)@ == old(self)@,
            },
            old(self)@.inv() ==> final(self)@.inv(),
    {
        let r = self.browser_outputs.pop_front();
        assert(r is Some ==> self@.browser_outputs =~= old(self)@.browser_outputs.skip(1));
        r
    }

    /// The next answer for a room server.
    pub fn poll_event(&mut self) -> (r: Option<AuthorityResponse>)
        ensures
            match r {
                Some(response) => old(self)@.authority_responses.len() > 0 && response@
                    == old(self)@.authority_responses[0] && final(self)@ == (model::State {
                    authority_responses: old(self)@.authority_responses.skip(1),
                    ..old(self)@
                }),
                None => old(self)@.authority_responses.len() == 0 && final(self)@ == old(self)@,
            },
            old(self)@.inv() ==> final(self)@.inv(),
    {
        let r = self.authority_responses.pop_front();
        assert(r is Some ==> self@.authority_responses =~= old(self)@.authority_responses.skip(1));
        r
    }

    pub fn handle_timeout(&mut self, now: Instant) -> (r: Result<(), String>)
        ensures
            r is Ok,
            final(self)@ == old(self)@.handle_timeout(now),
            old(self)@.inv() ==> final(self)@.inv(),
    {
        proof {
            if self@.inv() {
                laws::law_time_keeps_inv(self@, now);
            }
        }
        let _ = self.rooms.handle_timeout(now);
        let promotions = self.v2_rooms.handle_timeout(now);
        let ghost start = self@;
        let mut i: usize = 0;
        while i < promotions.len()
            invariant
                i <= promotions@.len(),
                self@ == start.with_promotions(promotions@.take(i as int)),
            decreases promotions@.len() - i,
        {
            assert(promotions@.take(i + 1).drop_last() =~= promotions@.take(i as int));
            self.push_promotion(promotions[i]);
            i = i + 1;
        }
        assert(promotions@.take(i as int) =~= promotions@);
        // Timeouts can queue SFU commands (such as a retried disconnect `Leave`); flush
        // them so they reach the worker instead of stalling until the next event.
        self.drain_v2_actions();
        Ok(())
    }

    /// When `handle_timeout` has something to do next.
    pub fn poll_timeout(&self) -> (r: Option<Instant>)
        ensures
            time::is_earliest(r, |t: Instant| self@.is_deadline(t)),
    {
        let a = self.rooms.poll_timeout();
        let b = self.v2_rooms.poll_timeout();
        let r = time::earlier(a, b);
        proof {
            let p = |t: Instant| exists|id: Text| self@.rooms.is_deadline(id, t);
            let q = |t: Instant| self@.v2_rooms.is_deadline(t);
            let s = |t: Instant| self@.is_deadline(t);
            time::lemma_earliest_either(a, b, p, q);
            time::lemma_earliest_same(r, |t: Instant| p(t) || q(t), s);
        }
        r
    }

    pub fn close(&mut self) -> (r: Result<(), String>)
        ensures
            r is Ok,
            final(self)@ == old(self)@.closed(),
            old(self)@.inv() ==> final(self)@.inv(),
    {
        proof {
            if self@.inv() {
                laws::law_close_keeps_inv(self@);
            }
        }
        let ghost start = self@;
        let ghost g = model::close_output();
        let connections = self.sessions.keys();
        let mut i: usize = 0;
        assert(self@.browser_outputs =~= start.browser_outputs + connections@.take(0).map_values(
            g,
        ));
        while i < connections.len()
            invariant
                i <= connections@.len(),
                g == model::close_output(),
                self@ == start.with_outputs(connections@.take(i as int).map_values(g)),
            decreases connections@.len() - i,
        {
            let connection_id: ConnectionId = connections[i];
            self.browser_outputs.push_back(BrowserOutput::Close { connection_id });
            assert(connections@.take(i + 1).map_values(g) =~= connections@.take(
                i as int,
            ).map_values(g).push(g(connections@[i as int])));
            i = i + 1;
            assert(self@.browser_outputs =~= start.browser_outputs + connections@.take(
                i as int,
            ).map_values(g));
        }
        assert(connections@.take(i as int) =~= connections@);
        self.sessions.clear();
        self.connections.clear();
        self.v2_connections.clear();
        self.v2_rooms.clear();
        self.rooms.close()
    }
}

/// What the clients of a room are told.
enum Notice {
    Upgrade { signal_epoch: u64 },
    Downgrade { signal_epoch: u64, initiator_client_id: v2::ClientId },
    Failure { reason: String },
}

impl Notice {
    spec fn texts(self, room_id: u64) -> spec_fn(u64) -> Text {
        match self {
            Notice::Upgrade { signal_epoch } => model::upgrade_text(room_id, signal_epoch),
            Notice::Downgrade { signal_epoch, initiator_client_id } => model::downgrade_text(
                room_id,
                signal_epoch,
                initiator_client_id,
            ),
            Notice::Failure { reason } => model::failure_text(room_id, reason@),
        }
    }

    fn text(&self, room_id: v2::RoomId, client_id: v2::ClientId) -> (r: String)
        ensures
            r@ == self.texts(room_id)(client_id),
    {
        match self {
            Notice::Upgrade { signal_epoch } => {
                let upgrade = V2Upgrade {
                    control: "sfu-upgrade",
                    roomid: text::to_decimal(room_id),
                    epoch: text::to_decimal(*signal_epoch),
                };
                upgrade.to_wire()
            },
            Notice::Downgrade { signal_epoch, initiator_client_id } => {
                let downgrade = V2Downgrade {
                    control: "sfu-downgrade",
                    roomid: text::to_decimal(room_id),
                    epoch: text::to_decimal(*signal_epoch),
                    is_initiator: client_id == *initiator_client_id,
                };
                downgrade.to_wire()
            },
            Notice::Failure { reason } => {
                let failed = V2RoomFailed {
                    control: "room-failed",
                    roomid: text::to_decimal(room_id),
                    reason: reason.clone(),
                };
                failed.to_wire()
            },
        }
    }
}

} // verus!
