//! Transport-independent SFU control-plane messages.
//!
//! An adapter maps these values to its wire format. Keeping the domain model
//! here lets the signaling authority remain Sans-I/O.

use crate::seqs::Text;
use crate::time::Instant;
use vstd::prelude::*;

verus! {

pub type ConnectionId = u64;

pub type RequestId = u64;

#[derive(Debug, Clone, Copy, PartialEq, Eq, Structural)]
pub struct Capacity {
    pub max_rooms: u64,
    pub max_clients: u64,
}

#[derive(Debug, Clone, Copy, PartialEq, Eq, Structural)]
pub enum State {
    Ready,
    Draining,
}

#[derive(Debug, Clone, Copy, PartialEq, Eq, Structural)]
pub struct Health {
    pub state: State,
    pub capacity: Capacity,
    pub current_rooms: u64,
    pub current_clients: u64,
}

#[derive(Debug, Clone, Copy, PartialEq, Eq, Structural)]
pub struct JoinMember {
    pub room_id: u64,
    pub client_id: u64,
    pub lifecycle_id: u64,
    pub assignment_epoch: u64,
}

#[derive(Debug, Clone, Copy, PartialEq, Eq, Structural)]
pub struct MemberProjection {
    pub client_id: u64,
    pub lifecycle_id: u64,
}

#[derive(Debug, PartialEq, Eq)]
pub struct SyncRoom {
    pub room_id: u64,
    pub assignment_epoch: u64,
    pub members: Vec<MemberProjection>,
}

#[derive(Debug, Clone, Copy, PartialEq, Eq, Structural)]
pub struct RoomSynced {
    pub room_id: u64,
    pub assignment_epoch: u64,
}

#[derive(Debug, Clone, Copy, PartialEq, Eq, Structural)]
pub struct LeaveMember {
    pub room_id: u64,
    pub client_id: u64,
    pub lifecycle_id: u64,
    pub assignment_epoch: u64,
    pub reason: LeaveReason,
}

#[derive(Debug, Clone, Copy, PartialEq, Eq, Structural)]
pub enum LeaveReason {
    User,
    Disconnected,
    RoomClosed,
    WorkerFailure,
}

#[derive(Debug, PartialEq, Eq)]
pub struct Signal {
    pub room_id: u64,
    pub client_id: u64,
    pub lifecycle_id: u64,
    pub assignment_epoch: u64,
    pub message_json: String,
    pub sdp_request_id: Option<u64>,
}

#[derive(Debug, PartialEq, Eq)]
pub enum CommandKind {
    SyncRoom(SyncRoom),
    Join(JoinMember),
    Leave(LeaveMember),
    Signal(Signal),
}

#[derive(Debug, PartialEq, Eq)]
pub struct Command {
    pub request_id: RequestId,
    pub command: CommandKind,
}

#[derive(Debug, Clone, Copy, PartialEq, Eq, Structural)]
pub enum CommandOk {
    Acknowledged,
    RoomSynced(RoomSynced),
    MemberJoined(JoinMember),
    MemberLeft(LeaveMember),
}

#[derive(Debug, PartialEq, Eq)]
pub struct Error {
    pub reason: String,
    pub retryable: bool,
}

#[derive(Debug, PartialEq, Eq)]
pub struct CommandResult {
    pub request_id: RequestId,
    pub result: Result<CommandOk, Error>,
}

#[derive(Debug, PartialEq, Eq)]
pub enum EventKind {
    Signal(Signal),
    Health(Health),
    Failure {
        error: Error,
        room_id: Option<u64>,
        client_id: Option<u64>,
        lifecycle_id: Option<u64>,
        sdp_request_id: Option<u64>,
    },
}

#[derive(Debug, PartialEq, Eq)]
pub struct Event {
    pub request_id: RequestId,
    pub event: EventKind,
}

#[derive(Debug, PartialEq, Eq)]
pub enum Input {
    Register {
        connection_id: ConnectionId,
        instance_id: String,
        request_id: RequestId,
        capacity: Capacity,
    },
    CommandResult {
        connection_id: ConnectionId,
        instance_id: String,
        result: CommandResult,
        now: Instant,
    },
    Event { connection_id: ConnectionId, instance_id: String, event: Event },
    Disconnected { connection_id: ConnectionId, instance_id: String, now: Instant },
}

#[derive(Debug, PartialEq, Eq)]
pub enum Output {
    Registered {
        connection_id: ConnectionId,
        request_id: RequestId,
        health_interval_ms: u64,
        resumed: bool,
    },
    RegistrationError { connection_id: ConnectionId, request_id: RequestId, error: Error },
    Command { connection_id: ConnectionId, command: Command },
    EventAck { connection_id: ConnectionId, request_id: RequestId },
    Close { connection_id: ConnectionId },
}

#[verifier::ext_equal]
pub struct SyncRoomView {
    pub room_id: u64,
    pub assignment_epoch: u64,
    pub members: Seq<MemberProjection>,
}

#[verifier::ext_equal]
pub struct SignalView {
    pub room_id: u64,
    pub client_id: u64,
    pub lifecycle_id: u64,
    pub assignment_epoch: u64,
    pub message_json: Text,
    pub sdp_request_id: Option<u64>,
}

#[verifier::ext_equal]
pub enum CommandKindView {
    SyncRoom(SyncRoomView),
    Join(JoinMember),
    Leave(LeaveMember),
    Signal(SignalView),
}

#[verifier::ext_equal]
pub struct CommandView {
    pub request_id: u64,
    pub command: CommandKindView,
}

#[verifier::ext_equal]
pub struct ErrorView {
    pub reason: Text,
    pub retryable: bool,
}

#[verifier::ext_equal]
pub struct CommandResultView {
    pub request_id: u64,
    pub result: Result<CommandOk, ErrorView>,
}

#[verifier::ext_equal]
pub enum EventKindView {
    Signal(SignalView),
    Health(Health),
    Failure {
        error: ErrorView,
        room_id: Option<u64>,
        client_id: Option<u64>,
        lifecycle_id: Option<u64>,
        sdp_request_id: Option<u64>,
    },
}

#[verifier::ext_equal]
pub struct EventView {
    pub request_id: u64,
    pub event: EventKindView,
}

#[verifier::ext_equal]
pub enum InputView {
    Register { connection_id: u64, instance_id: Text, request_id: u64, capacity: Capacity },
    CommandResult { connection_id: u64, instance_id: Text, result: CommandResultView, now: Instant },
    Event { connection_id: u64, instance_id: Text, event: EventView },
    Disconnected { connection_id: u64, instance_id: Text, now: Instant },
}

#[verifier::ext_equal]
pub enum OutputView {
    Registered { connection_id: u64, request_id: u64, health_interval_ms: u64, resumed: bool },
    RegistrationError { connection_id: u64, request_id: u64, error: ErrorView },
    Command { connection_id: u64, command: CommandView },
    EventAck { connection_id: u64, request_id: u64 },
    Close { connection_id: u64 },
}

impl View for SyncRoom {
    type V = SyncRoomView;

    open spec fn view(&self) -> SyncRoomView {
        SyncRoomView {
            room_id: self.room_id,
            assignment_epoch: self.assignment_epoch,
            members: self.members@,
        }
    }
}

impl View for Signal {
    type V = SignalView;

    open spec fn view(&self) -> SignalView {
        SignalView {
            room_id: self.room_id,
            client_id: self.client_id,
            lifecycle_id: self.lifecycle_id,
            assignment_epoch: self.assignment_epoch,
            message_json: self.message_json@,
            sdp_request_id: self.sdp_request_id,
        }
    }
}

impl View for CommandKind {
    type V = CommandKindView;

    open spec fn view(&self) -> CommandKindView {
        match self {
            CommandKind::SyncRoom(c) => CommandKindView::SyncRoom(c@),
            CommandKind::Join(c) => CommandKindView::Join(*c),
            CommandKind::Leave(c) => CommandKindView::Leave(*c),
            CommandKind::Signal(c) => CommandKindView::Signal(c@),
        }
    }
}

impl View for Command {
    type V = CommandView;

    open spec fn view(&self) -> CommandView {
        CommandView { request_id: self.request_id, command: self.command@ }
    }
}

impl View for Error {
    type V = ErrorView;

    open spec fn view(&self) -> ErrorView {
        ErrorView { reason: self.reason@, retryable: self.retryable }
    }
}

impl View for CommandResult {
    type V = CommandResultView;

    open spec fn view(&self) -> CommandResultView {
        CommandResultView {
            request_id: self.request_id,
            result: match self.result {
                Ok(ok) => Ok(ok),
                Err(error) => Err(error@),
            },
        }
    }
}

impl View for EventKind {
    type V = EventKindView;

    open spec fn view(&self) -> EventKindView {
        match self {
            EventKind::Signal(signal) => EventKindView::Signal(signal@),
            EventKind::Health(health) => EventKindView::Health(*health),
            EventKind::Failure { error, room_id, client_id, lifecycle_id, sdp_request_id } => {
                EventKindView::Failure {
                    error: error@,
                    room_id: *room_id,
                    client_id: *client_id,
                    lifecycle_id: *lifecycle_id,
                    sdp_request_id: *sdp_request_id,
                }
            },
        }
    }
}

impl View for Event {
    type V = EventView;

    open spec fn view(&self) -> EventView {
        EventView { request_id: self.request_id, event: self.event@ }
    }
}

impl View for Input {
    type V = InputView;

    open spec fn view(&self) -> InputView {
        match self {
            Input::Register { connection_id, instance_id, request_id, capacity } => {
                InputView::Register {
                    connection_id: *connection_id,
                    instance_id: instance_id@,
                    request_id: *request_id,
                    capacity: *capacity,
                }
            },
            Input::CommandResult { connection_id, instance_id, result, now } => {
                InputView::CommandResult {
                    connection_id: *connection_id,
                    instance_id: instance_id@,
                    result: result@,
                    now: *now,
                }
            },
            Input::Event { connection_id, instance_id, event } => {
                InputView::Event {
                    connection_id: *connection_id,
                    instance_id: instance_id@,
                    event: event@,
                }
            },
            Input::Disconnected { connection_id, instance_id, now } => {
                InputView::Disconnected {
                    connection_id: *connection_id,
                    instance_id: instance_id@,
                    now: *now,
                }
            },
        }
    }
}

impl View for Output {
    type V = OutputView;

    open spec fn view(&self) -> OutputView {
        match self {
            Output::Registered { connection_id, request_id, health_interval_ms, resumed } => {
                OutputView::Registered {
                    connection_id: *connection_id,
                    request_id: *request_id,
                    health_interval_ms: *health_interval_ms,
                    resumed: *resumed,
                }
            },
            Output::RegistrationError { connection_id, request_id, error } => {
                OutputView::RegistrationError {
                    connection_id: *connection_id,
                    request_id: *request_id,
                    error: error@,
                }
            },
            Output::Command { connection_id, command } => {
                OutputView::Command { connection_id: *connection_id, command: command@ }
            },
            Output::EventAck { connection_id, request_id } => {
                OutputView::EventAck { connection_id: *connection_id, request_id: *request_id }
            },
            Output::Close { connection_id } => { OutputView::Close { connection_id: *connection_id } },
        }
    }
}

impl Clone for SyncRoom {
    fn clone(&self) -> (r: SyncRoom)
        ensures
            r@ == self@,
    {
        let members = self.members.clone();
        assert(members@ =~= self.members@);
        SyncRoom { room_id: self.room_id, assignment_epoch: self.assignment_epoch, members }
    }
}

impl Clone for Signal {
    fn clone(&self) -> (r: Signal)
        ensures
            r@ == self@,
    {
        Signal {
            room_id: self.room_id,
            client_id: self.client_id,
            lifecycle_id: self.lifecycle_id,
            assignment_epoch: self.assignment_epoch,
            message_json: self.message_json.clone(),
            sdp_request_id: self.sdp_request_id,
        }
    }
}

impl Clone for CommandKind {
    fn clone(&self) -> (r: CommandKind)
        ensures
            r@ == self@,
    {
        match self {
            CommandKind::SyncRoom(c) => CommandKind::SyncRoom(c.clone()),
            CommandKind::Join(c) => CommandKind::Join(*c),
            CommandKind::Leave(c) => CommandKind::Leave(*c),
            CommandKind::Signal(c) => CommandKind::Signal(c.clone()),
        }
    }
}

impl Clone for Command {
    fn clone(&self) -> (r: Command)
        ensures
            r@ == self@,
    {
        Command { request_id: self.request_id, command: self.command.clone() }
    }
}

impl Clone for Error {
    fn clone(&self) -> (r: Error)
        ensures
            r@ == self@,
    {
        Error { reason: self.reason.clone(), retryable: self.retryable }
    }
}

impl Clone for CommandResult {
    fn clone(&self) -> (r: CommandResult)
        ensures
            r@ == self@,
    {
        CommandResult {
            request_id: self.request_id,
            result: match &self.result {
                Ok(ok) => Ok(*ok),
                Err(error) => Err(error.clone()),
            },
        }
    }
}

impl Clone for EventKind {
    fn clone(&self) -> (r: EventKind)
        ensures
            r@ == self@,
    {
        match self {
            EventKind::Signal(signal) => EventKind::Signal(signal.clone()),
            EventKind::Health(health) => EventKind::Health(*health),
            EventKind::Failure { error, room_id, client_id, lifecycle_id, sdp_request_id } => {
                EventKind::Failure {
                    error: error.clone(),
                    room_id: *room_id,
                    client_id: *client_id,
                    lifecycle_id: *lifecycle_id,
                    sdp_request_id: *sdp_request_id,
                }
            },
        }
    }
}

impl Clone for Event {
    fn clone(&self) -> (r: Event)
        ensures
            r@ == self@,
    {
        Event { request_id: self.request_id, event: self.event.clone() }
    }
}

impl Clone for Input {
    fn clone(&self) -> (r: Input)
        ensures
            r@ == self@,
    {
        match self {
            Input::Register { connection_id, instance_id, request_id, capacity } => Input::Register {
                connection_id: *connection_id,
                instance_id: instance_id.clone(),
                request_id: *request_id,
                capacity: *capacity,
            },
            Input::CommandResult { connection_id, instance_id, result, now } => {
                Input::CommandResult {
                    connection_id: *connection_id,
                    instance_id: instance_id.clone(),
                    result: result.clone(),
                    now: *now,
                }
            },
            Input::Event { connection_id, instance_id, event } => Input::Event {
                connection_id: *connection_id,
                instance_id: instance_id.clone(),
                event: event.clone(),
            },
            Input::Disconnected { connection_id, instance_id, now } => Input::Disconnected {
                connection_id: *connection_id,
                instance_id: instance_id.clone(),
                now: *now,
            },
        }
    }
}

impl Clone for Output {
    fn clone(&self) -> (r: Output)
        ensures
            r@ == self@,
    {
        match self {
            Output::Registered { connection_id, request_id, health_interval_ms, resumed } => {
                Output::Registered {
                    connection_id: *connection_id,
                    request_id: *request_id,
                    health_interval_ms: *health_interval_ms,
                    resumed: *resumed,
                }
            },
            Output::RegistrationError { connection_id, request_id, error } => {
                Output::RegistrationError {
                    connection_id: *connection_id,
                    request_id: *request_id,
                    error: error.clone(),
                }
            },
            Output::Command { connection_id, command } => Output::Command {
                connection_id: *connection_id,
                command: command.clone(),
            },
            Output::EventAck { connection_id, request_id } => Output::EventAck {
                connection_id: *connection_id,
                request_id: *request_id,
            },
            Output::Close { connection_id } => Output::Close { connection_id: *connection_id },
        }
    }
}

} // verus!
