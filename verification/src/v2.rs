//! SFU-capable V2 room and worker state.
//!
//! Identifiers are numeric, browser registrations are admission-token bound,
//! and P2P-to-SFU upgrades commit only after every `JoinMember` command has
//! succeeded.

use crate::ord_map::{OrdMap, OrdSet};
use crate::seqs;
use crate::seqs::Text;
use crate::sfu;
use crate::time::{Duration, Instant};
use std::collections::VecDeque;
use vstd::prelude::*;

mod browsers;
pub mod invariants;
pub mod laws;
mod members;
pub mod model;
mod timeouts;
mod transitions;
mod workers;

verus! {

broadcast use {crate::seqs::group_views, crate::ord_map::group_maps};

pub const MAX_P2P_MEMBERS: usize = 2;

pub const MAX_QUEUED_MESSAGES: usize = 1024;

pub const HEALTH_INTERVAL_MS: u64 = 30_000;

pub const EVENT_DEDUP_CAPACITY: usize = 4096;

/// How long an SFU room must sit at two members or fewer before it downgrades
/// back to direct P2P. The dwell absorbs brief membership churn (a third
/// participant leaving and immediately rejoining) so the room does not flap
/// between modes.
pub const DOWNGRADE_DWELL_NANOS: u128 = 2_000_000_000;

pub type RoomId = u64;

pub type ClientId = u64;

#[derive(Debug, Clone, Copy, PartialEq, Eq, Structural)]
pub enum RoomMode {
    P2p,
    Upgrading,
    Sfu,
    Failed,
}

#[derive(Debug, PartialEq, Eq)]
pub struct Admission {
    pub mode: RoomMode,
    pub signal_epoch: u64,
    pub admission_token: String,
    pub is_initiator: Option<bool>,
}

#[derive(Debug, PartialEq, Eq)]
pub enum AdmissionResult {
    Complete(Admission),
    Pending,
}

#[derive(Debug, Clone, Copy, PartialEq, Eq, Structural)]
pub enum RemovalResult {
    Complete(Option<Promotion>),
    Pending,
}

#[derive(Debug, PartialEq, Eq)]
pub struct Registration {
    pub mode: RoomMode,
    pub signal_epoch: u64,
    pub is_initiator: Option<bool>,
    pub queued_messages: Vec<String>,
}

#[derive(Debug, PartialEq, Eq)]
pub struct Delivery {
    pub room_id: RoomId,
    pub client_id: ClientId,
    pub message: String,
}

#[derive(Debug, Clone, Copy, PartialEq, Eq, Structural)]
pub struct Promotion {
    pub room_id: RoomId,
    pub client_id: ClientId,
    pub signal_epoch: u64,
}

#[derive(Debug, PartialEq, Eq)]
pub enum SendResult {
    P2p(Option<Delivery>),
    Sfu,
    Dropped,
}

#[derive(Debug, PartialEq, Eq)]
#[allow(inconsistent_fields)]
pub enum Action {
    Sfu(sfu::Output),
    AdmissionCompleted { authority_request_id: u64, result: Result<Admission, String> },
    RemovalCompleted {
        authority_request_id: u64,
        room_id: RoomId,
        client_id: ClientId,
        result: Result<(), String>,
    },
    Upgraded { room_id: RoomId, signal_epoch: u64, existing_clients: Vec<ClientId> },
    Downgraded {
        room_id: RoomId,
        signal_epoch: u64,
        /// The member elected to offer the direct P2P connection; every other
        /// member becomes the answerer.
        initiator_client_id: ClientId,
        clients: Vec<ClientId>,
    },
    Deliver(Delivery),
    /// The survivor of an SFU room, once the other member has left the worker.
    Promoted(Promotion),
    RoomFailed { room_id: RoomId, clients: Vec<ClientId>, reason: String },
}

#[verifier::ext_equal]
pub struct AdmissionView {
    pub mode: RoomMode,
    pub signal_epoch: u64,
    pub admission_token: Text,
    pub is_initiator: Option<bool>,
}

#[verifier::ext_equal]
pub enum AdmissionResultView {
    Complete(AdmissionView),
    Pending,
}

#[verifier::ext_equal]
pub struct RegistrationView {
    pub mode: RoomMode,
    pub signal_epoch: u64,
    pub is_initiator: Option<bool>,
    pub queued_messages: Seq<Text>,
}

#[verifier::ext_equal]
pub struct DeliveryView {
    pub room_id: u64,
    pub client_id: u64,
    pub message: Text,
}

#[verifier::ext_equal]
pub enum SendResultView {
    P2p(Option<DeliveryView>),
    Sfu,
    Dropped,
}

#[verifier::ext_equal]
#[allow(inconsistent_fields)]
pub enum ActionView {
    Sfu(sfu::OutputView),
    AdmissionCompleted { authority_request_id: u64, result: Result<AdmissionView, Text> },
    RemovalCompleted {
        authority_request_id: u64,
        room_id: u64,
        client_id: u64,
        result: Result<(), Text>,
    },
    Upgraded { room_id: u64, signal_epoch: u64, existing_clients: Seq<u64> },
    Downgraded {
        room_id: u64,
        signal_epoch: u64,
        initiator_client_id: u64,
        clients: Seq<u64>,
    },
    Deliver(DeliveryView),
    Promoted(Promotion),
    RoomFailed { room_id: u64, clients: Seq<u64>, reason: Text },
}

impl AdmissionView {
    /// A place in a room that runs on a worker.
    pub open spec fn relayed(signal_epoch: u64, token: Text) -> AdmissionView {
        AdmissionView {
            mode: RoomMode::Sfu,
            signal_epoch,
            admission_token: token,
            is_initiator: None,
        }
    }
}

impl AdmissionResultView {
    /// A place in a direct room.
    pub open spec fn direct(
        signal_epoch: u64,
        token: Text,
        is_initiator: bool,
    ) -> AdmissionResultView {
        AdmissionResultView::Complete(
            AdmissionView {
                mode: RoomMode::P2p,
                signal_epoch,
                admission_token: token,
                is_initiator: Some(is_initiator),
            },
        )
    }
}

impl ActionView {
    /// The answer to the authority that asked for a leave, if it did.
    pub open spec fn removal(
        leave: PendingLeave,
        room_id: u64,
        client_id: u64,
        result: Result<(), Text>,
    ) -> Seq<ActionView> {
        match leave.authority_request_id {
            Some(authority_request_id) => seq![
                ActionView::RemovalCompleted { authority_request_id, room_id, client_id, result },
            ],
            None => Seq::empty(),
        }
    }

    /// The news for a survivor, if there is any.
    pub open spec fn promoted(promotion: Option<Promotion>) -> Seq<ActionView> {
        match promotion {
            Some(promotion) => seq![ActionView::Promoted(promotion)],
            None => Seq::empty(),
        }
    }
}

impl View for Admission {
    type V = AdmissionView;

    open spec fn view(&self) -> AdmissionView {
        AdmissionView {
            mode: self.mode,
            signal_epoch: self.signal_epoch,
            admission_token: self.admission_token@,
            is_initiator: self.is_initiator,
        }
    }
}

impl View for AdmissionResult {
    type V = AdmissionResultView;

    open spec fn view(&self) -> AdmissionResultView {
        match self {
            AdmissionResult::Complete(admission) => AdmissionResultView::Complete(admission@),
            AdmissionResult::Pending => AdmissionResultView::Pending,
        }
    }
}

impl View for RemovalResult {
    type V = RemovalResult;

    open spec fn view(&self) -> RemovalResult {
        *self
    }
}

impl View for Promotion {
    type V = Promotion;

    open spec fn view(&self) -> Promotion {
        *self
    }
}

impl View for Registration {
    type V = RegistrationView;

    open spec fn view(&self) -> RegistrationView {
        RegistrationView {
            mode: self.mode,
            signal_epoch: self.signal_epoch,
            is_initiator: self.is_initiator,
            queued_messages: seqs::views(self.queued_messages@),
        }
    }
}

impl View for Delivery {
    type V = DeliveryView;

    open spec fn view(&self) -> DeliveryView {
        DeliveryView { room_id: self.room_id, client_id: self.client_id, message: self.message@ }
    }
}

impl View for SendResult {
    type V = SendResultView;

    open spec fn view(&self) -> SendResultView {
        match self {
            SendResult::P2p(delivery) => SendResultView::P2p(seqs::opt_view(*delivery)),
            SendResult::Sfu => SendResultView::Sfu,
            SendResult::Dropped => SendResultView::Dropped,
        }
    }
}

impl View for Action {
    type V = ActionView;

    open spec fn view(&self) -> ActionView {
        match self {
            Action::Sfu(output) => ActionView::Sfu(output@),
            Action::AdmissionCompleted { authority_request_id, result } => {
                ActionView::AdmissionCompleted {
                    authority_request_id: *authority_request_id,
                    result: seqs::result_view(*result),
                }
            },
            Action::RemovalCompleted { authority_request_id, room_id, client_id, result } => {
                ActionView::RemovalCompleted {
                    authority_request_id: *authority_request_id,
                    room_id: *room_id,
                    client_id: *client_id,
                    result: seqs::result_view(*result),
                }
            },
            Action::Upgraded { room_id, signal_epoch, existing_clients } => {
                ActionView::Upgraded {
                    room_id: *room_id,
                    signal_epoch: *signal_epoch,
                    existing_clients: existing_clients@,
                }
            },
            Action::Downgraded { room_id, signal_epoch, initiator_client_id, clients } => {
                ActionView::Downgraded {
                    room_id: *room_id,
                    signal_epoch: *signal_epoch,
                    initiator_client_id: *initiator_client_id,
                    clients: clients@,
                }
            },
            Action::Deliver(delivery) => ActionView::Deliver(delivery@),
            Action::Promoted(promotion) => ActionView::Promoted(*promotion),
            Action::RoomFailed { room_id, clients, reason } => {
                ActionView::RoomFailed { room_id: *room_id, clients: clients@, reason: reason@ }
            },
        }
    }
}

impl Clone for Admission {
    fn clone(&self) -> (r: Admission)
        ensures
            r@ == self@,
    {
        Admission {
            mode: self.mode,
            signal_epoch: self.signal_epoch,
            admission_token: self.admission_token.clone(),
            is_initiator: self.is_initiator,
        }
    }
}

impl Clone for AdmissionResult {
    fn clone(&self) -> (r: AdmissionResult)
        ensures
            r@ == self@,
    {
        match self {
            AdmissionResult::Complete(admission) => AdmissionResult::Complete(admission.clone()),
            AdmissionResult::Pending => AdmissionResult::Pending,
        }
    }
}

impl Clone for Registration {
    fn clone(&self) -> (r: Registration)
        ensures
            r@ == self@,
    {
        Registration {
            mode: self.mode,
            signal_epoch: self.signal_epoch,
            is_initiator: self.is_initiator,
            queued_messages: seqs::copy_texts(&self.queued_messages),
        }
    }
}

impl Clone for Delivery {
    fn clone(&self) -> (r: Delivery)
        ensures
            r@ == self@,
    {
        Delivery {
            room_id: self.room_id,
            client_id: self.client_id,
            message: self.message.clone(),
        }
    }
}

impl Clone for SendResult {
    fn clone(&self) -> (r: SendResult)
        ensures
            r@ == self@,
    {
        match self {
            SendResult::P2p(Some(delivery)) => SendResult::P2p(Some(delivery.clone())),
            SendResult::P2p(None) => SendResult::P2p(None),
            SendResult::Sfu => SendResult::Sfu,
            SendResult::Dropped => SendResult::Dropped,
        }
    }
}

impl Clone for Action {
    fn clone(&self) -> (r: Action)
        ensures
            r@ == self@,
    {
        match self {
            Action::Sfu(output) => Action::Sfu(output.clone()),
            Action::AdmissionCompleted { authority_request_id, result } => {
                Action::AdmissionCompleted {
                    authority_request_id: *authority_request_id,
                    result: match result {
                        Ok(admission) => Ok(admission.clone()),
                        Err(reason) => Err(reason.clone()),
                    },
                }
            },
            Action::RemovalCompleted { authority_request_id, room_id, client_id, result } => {
                Action::RemovalCompleted {
                    authority_request_id: *authority_request_id,
                    room_id: *room_id,
                    client_id: *client_id,
                    result: match result {
                        Ok(_) => Ok(()),
                        Err(reason) => Err(reason.clone()),
                    },
                }
            },
            Action::Upgraded { room_id, signal_epoch, existing_clients } => Action::Upgraded {
                room_id: *room_id,
                signal_epoch: *signal_epoch,
                existing_clients: seqs::copy_numbers(existing_clients),
            },
            Action::Downgraded { room_id, signal_epoch, initiator_client_id, clients } => {
                Action::Downgraded {
                    room_id: *room_id,
                    signal_epoch: *signal_epoch,
                    initiator_client_id: *initiator_client_id,
                    clients: seqs::copy_numbers(clients),
                }
            },
            Action::Deliver(delivery) => Action::Deliver(delivery.clone()),
            Action::Promoted(promotion) => Action::Promoted(*promotion),
            Action::RoomFailed { room_id, clients, reason } => Action::RoomFailed {
                room_id: *room_id,
                clients: seqs::copy_numbers(clients),
                reason: reason.clone(),
            },
        }
    }
}

struct Member {
    token: String,
    is_initiator: bool,
    lifecycle_id: u64,
    registered: bool,
    reconnect_deadline: Option<Instant>,
    queued_messages: VecDeque<String>,
}

impl View for Member {
    type V = model::Member;

    closed spec fn view(&self) -> model::Member {
        model::Member {
            token: self.token@,
            is_initiator: self.is_initiator,
            lifecycle_id: self.lifecycle_id,
            registered: self.registered,
            reconnect_deadline: self.reconnect_deadline,
            queued_messages: seqs::views(self.queued_messages@),
        }
    }
}

/// An upgrade that still waits for a client to join the worker.
struct Upgrade {
    authority_request_id: u64,
    joining_client_id: ClientId,
    ordered_clients: Vec<ClientId>,
    joined_clients: Vec<ClientId>,
    next_client: usize,
}

impl Upgrade {
    #[verifier::type_invariant]
    spec fn waits(self) -> bool {
        self.next_client < self.ordered_clients@.len()
    }
}

impl View for Upgrade {
    type V = model::Upgrade;

    closed spec fn view(&self) -> model::Upgrade {
        model::Upgrade {
            authority_request_id: self.authority_request_id,
            joining_client_id: self.joining_client_id,
            ordered_clients: self.ordered_clients@,
            joined_clients: self.joined_clients@,
            next_client: self.next_client as nat,
        }
    }
}

/// A client that waits for its place on the worker of its room.
#[derive(Clone, Copy)]
pub struct PendingJoin {
    pub authority_request_id: u64,
    pub client_id: ClientId,
}

/// A client that is about to leave the worker of its room.
#[derive(Clone, Copy)]
pub struct PendingLeave {
    pub authority_request_id: Option<u64>,
    pub client_id: ClientId,
}

struct Room {
    members: OrdMap<ClientId, Member>,
    mode: RoomMode,
    signal_epoch: u64,
    assignment_epoch: u64,
    assigned_instance: Option<String>,
    upgrade: Option<Upgrade>,
    pending_join: Option<PendingJoin>,
    pending_leave: Option<PendingLeave>,
    /// When an SFU room shrinks to at most two members it becomes eligible for a
    /// downgrade back to direct P2P. This is the deadline after which the dwell
    /// expires and `commit_downgrade` runs. Every stable SFU room of at most two
    /// members has one; a join clears it, and a leave that is under way does not.
    downgrade_deadline: Option<Instant>,
}

impl View for Room {
    type V = model::Room;

    closed spec fn view(&self) -> model::Room {
        model::Room {
            members: self.members@,
            mode: self.mode,
            signal_epoch: self.signal_epoch,
            assignment_epoch: self.assignment_epoch,
            assigned_instance: seqs::opt_view(self.assigned_instance),
            upgrade: seqs::opt_view(self.upgrade),
            pending_join: self.pending_join,
            pending_leave: self.pending_leave,
            downgrade_deadline: self.downgrade_deadline,
        }
    }
}

struct Worker {
    connection_id: Option<sfu::ConnectionId>,
    capacity: sfu::Capacity,
    health: Option<sfu::Health>,
    assigned_rooms: OrdSet<RoomId>,
    assigned_clients: usize,
    seen_events: OrdSet<u64>,
    seen_event_order: VecDeque<u64>,
    disconnect_deadline: Option<Instant>,
}

impl View for Worker {
    type V = model::Worker;

    closed spec fn view(&self) -> model::Worker {
        model::Worker {
            connection_id: self.connection_id,
            capacity: self.capacity,
            health: self.health,
            assigned_rooms: self.assigned_rooms@,
            assigned_clients: self.assigned_clients,
            seen_events: self.seen_events@,
            seen_event_order: self.seen_event_order@,
            disconnect_deadline: self.disconnect_deadline,
        }
    }
}

enum PendingCommand {
    SyncRoom {
        instance_id: String,
        room_id: RoomId,
        assignment_epoch: u64,
        replay: Vec<sfu::Command>,
    },
    UpgradeJoin { instance_id: String, join: sfu::JoinMember },
    SfuJoin { instance_id: String, join: sfu::JoinMember },
    SfuLeave {
        instance_id: String,
        room_id: RoomId,
        client_id: ClientId,
        lifecycle_id: u64,
        assignment_epoch: u64,
    },
    Signal,
    Cleanup,
}

impl View for PendingCommand {
    type V = model::Pending;

    closed spec fn view(&self) -> model::Pending {
        match self {
            PendingCommand::SyncRoom { instance_id, room_id, assignment_epoch, replay } => {
                model::Pending::SyncRoom {
                    instance_id: instance_id@,
                    room_id: *room_id,
                    assignment_epoch: *assignment_epoch,
                    replay: seqs::views(replay@),
                }
            },
            PendingCommand::UpgradeJoin { instance_id, join } => model::Pending::UpgradeJoin {
                instance_id: instance_id@,
                join: *join,
            },
            PendingCommand::SfuJoin { instance_id, join } => model::Pending::SfuJoin {
                instance_id: instance_id@,
                join: *join,
            },
            PendingCommand::SfuLeave {
                instance_id,
                room_id,
                client_id,
                lifecycle_id,
                assignment_epoch,
            } => model::Pending::SfuLeave {
                instance_id: instance_id@,
                room_id: *room_id,
                client_id: *client_id,
                lifecycle_id: *lifecycle_id,
                assignment_epoch: *assignment_epoch,
            },
            PendingCommand::Signal => model::Pending::Signal,
            PendingCommand::Cleanup => model::Pending::Cleanup,
        }
    }
}

pub struct RoomTable {
    rooms: OrdMap<RoomId, Room>,
    workers: OrdMap<String, Worker>,
    lifecycle_ids: OrdMap<(RoomId, ClientId), u64>,
    pending_commands: OrdMap<u64, PendingCommand>,
    unacknowledged_commands: OrdMap<u64, sfu::Command>,
    command_workers: OrdMap<u64, String>,
    next_sfu_request_id: u64,
    reconnect_grace: Duration,
    downgrade_dwell: Duration,
    actions: VecDeque<Action>,
}

impl View for RoomTable {
    type V = model::Table;

    closed spec fn view(&self) -> model::Table {
        model::Table {
            rooms: self.rooms@,
            workers: self.workers@,
            lifecycle_ids: self.lifecycle_ids@,
            pending_commands: self.pending_commands@,
            unacknowledged_commands: self.unacknowledged_commands@,
            command_workers: self.command_workers@,
            next_sfu_request_id: self.next_sfu_request_id,
            reconnect_grace: self.reconnect_grace,
            downgrade_dwell: self.downgrade_dwell,
            actions: seqs::views(self.actions@),
        }
    }
}

impl RoomTable {
    pub fn new(reconnect_grace: Duration) -> (r: RoomTable)
        ensures
            r@ == model::Table::initial(reconnect_grace),
            r@.inv(),
    {
        proof {
            invariants::law_start_has_inv(model::Table::initial(reconnect_grace), reconnect_grace);
        }
        RoomTable {
            rooms: OrdMap::new(),
            workers: OrdMap::new(),
            lifecycle_ids: OrdMap::new(),
            pending_commands: OrdMap::new(),
            unacknowledged_commands: OrdMap::new(),
            command_workers: OrdMap::new(),
            next_sfu_request_id: 1,
            reconnect_grace,
            downgrade_dwell: Duration { nanos: DOWNGRADE_DWELL_NANOS },
            actions: VecDeque::new(),
        }
    }

    /// Override the SFU-to-P2P downgrade dwell (default [`DOWNGRADE_DWELL_NANOS`]).
    /// Lets a deployment tune how long a room lingers at two SFU members before
    /// returning to direct P2P.
    pub fn set_downgrade_dwell(&mut self, dwell: Duration)
        ensures
            final(self)@ == (model::Table { downgrade_dwell: dwell, ..old(self)@ }),
            old(self)@.inv() ==> final(self)@.inv(),
    {
        self.downgrade_dwell = dwell;
    }

    fn next_lifecycle(&mut self, room_id: RoomId, client_id: ClientId) -> (r: u64)
        ensures
            r == old(self)@.next_lifecycle(room_id, client_id),
            final(self)@ == old(self)@.with_lifecycle(room_id, client_id),
    {
        next_lifecycle(&mut self.lifecycle_ids, room_id, client_id)
    }

    fn next_command_id(&mut self) -> (r: u64)
        ensures
            r == old(self)@.next_sfu_request_id,
            final(self)@ == (model::Table {
                next_sfu_request_id: model::increment(r),
                ..old(self)@
            }),
    {
        let request_id: u64 = self.next_sfu_request_id;
        self.next_sfu_request_id = request_id.saturating_add(1);
        request_id
    }

    fn queue_command(
        &mut self,
        instance_id: String,
        connection_id: sfu::ConnectionId,
        command: sfu::Command,
        pending: PendingCommand,
    )
        ensures
            final(self)@ == old(self)@.queued(instance_id@, connection_id, command@, pending@),
    {
        self.pending_commands.insert(command.request_id, pending);
        self.command_workers.insert(command.request_id, instance_id);
        self.unacknowledged_commands.insert(command.request_id, command.clone());
        self.actions.push_back(Action::Sfu(sfu::Output::Command { connection_id, command }));
    }

    /// Sends a command under the next number.
    fn issue_command(
        &mut self,
        instance_id: String,
        connection_id: sfu::ConnectionId,
        kind: sfu::CommandKind,
        pending: PendingCommand,
    )
        ensures
            final(self)@ == old(self)@.commanded(instance_id@, connection_id, kind@, pending@),
    {
        let request_id: u64 = self.next_command_id();
        self.queue_command(
            instance_id,
            connection_id,
            sfu::Command { request_id, command: kind },
            pending,
        );
    }

    /// The worker that serves a room, with its connection.
    fn serving(&self, room_id: RoomId) -> (r: Option<(String, sfu::ConnectionId)>)
        ensures
            (match r {
                Some((instance_id, connection_id)) => Some((instance_id@, connection_id)),
                None => None,
            }) == (if self@.rooms.contains_key(room_id) {
                self@.serving(self@.rooms[room_id])
            } else {
                None
            }),
    {
        match self.rooms.get(&room_id) {
            Some(room) => match &room.assigned_instance {
                Some(instance_id) => match self.workers.get(instance_id) {
                    Some(worker) => match worker.connection_id {
                        Some(connection_id) => Some((instance_id.clone(), connection_id)),
                        None => None,
                    },
                    None => None,
                },
                None => None,
            },
            None => None,
        }
    }
}

/// A table holds finitely many things.
pub proof fn lemma_finite(t: RoomTable)
    ensures
        t@.finite(),
{
    assert forall|r: u64| #[trigger] t@.rooms.contains_key(r) implies t@.rooms[r].members.dom().finite() by {
        t.rooms.lemma_value_view(r);
        let room = choose|room: Room| room@ == t@.rooms[r];
        assert(room@.members == room.members@);
    }
    assert forall|i: Text| #[trigger] t@.workers.contains_key(i) implies t@.workers[i].assigned_rooms.finite()
        && t@.workers[i].seen_events.finite() by {
        t.workers.lemma_value_view(i);
        let worker = choose|worker: Worker| worker@ == t@.workers[i];
        assert(worker@.assigned_rooms == worker.assigned_rooms@);
        assert(worker@.seen_events == worker.seen_events@);
    }
}

fn next_lifecycle(
    lifecycle_ids: &mut OrdMap<(RoomId, ClientId), u64>,
    room_id: RoomId,
    client_id: ClientId,
) -> (r: u64)
    ensures
        r == model::next_lifecycle_in(old(lifecycle_ids)@, room_id, client_id),
        final(lifecycle_ids)@ == old(lifecycle_ids)@.insert((room_id, client_id), r),
{
    let key = (room_id, client_id);
    let value: u64 = match lifecycle_ids.get(&key) {
        Some(last) => last.saturating_add(1),
        None => 1,
    };
    lifecycle_ids.insert(key, value);
    value
}

} // verus!
