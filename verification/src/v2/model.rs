//! The state of a V2 room table as mathematical values, and what each
//! operation does to it.

use crate::ord_map;
use crate::seqs;
use crate::seqs::Text;
use crate::sfu::{
    Capacity, CommandKindView, CommandOk, CommandResultView, CommandView, ErrorView, EventKindView,
    EventView, Health, InputView, JoinMember, LeaveMember, LeaveReason, MemberProjection,
    OutputView, SignalView, State, SyncRoomView,
};
use crate::time::{Duration, Instant};
use crate::v2::{
    ActionView, AdmissionResultView, AdmissionView, DeliveryView, PendingJoin, PendingLeave,
    Promotion, RegistrationView, RemovalResult, RoomMode, SendResultView, DOWNGRADE_DWELL_NANOS,
    EVENT_DEDUP_CAPACITY, HEALTH_INTERVAL_MS, MAX_P2P_MEMBERS, MAX_QUEUED_MESSAGES,
};
use vstd::prelude::*;

verus! {

/// One more, up to the largest value.
pub open spec fn increment(n: u64) -> u64 {
    if n < u64::MAX {
        (n + 1) as u64
    } else {
        n
    }
}

/// A sum that stays at the largest value.
pub open spec fn capped_sum(a: usize, b: usize) -> usize {
    if a + b <= usize::MAX {
        (a + b) as usize
    } else {
        usize::MAX
    }
}

/// A difference that stays at zero.
pub open spec fn capped_difference(a: usize, b: nat) -> usize {
    if b <= a {
        (a - b) as usize
    } else {
        0
    }
}

/// Whether an optional deadline has been reached.
pub open spec fn reached(deadline: Option<Instant>, now: Instant) -> bool {
    match deadline {
        Some(t) => t.due(now),
        None => false,
    }
}

/// Holds of every client but one.
pub open spec fn other_than(client_id: u64) -> spec_fn(u64) -> bool {
    |c: u64| c != client_id
}

#[verifier::ext_equal]
pub struct Member {
    pub token: Text,
    pub is_initiator: bool,
    pub lifecycle_id: u64,
    pub registered: bool,
    pub reconnect_deadline: Option<Instant>,
    pub queued_messages: Seq<Text>,
}

#[verifier::ext_equal]
pub struct Upgrade {
    pub authority_request_id: u64,
    pub joining_client_id: u64,
    pub ordered_clients: Seq<u64>,
    pub joined_clients: Seq<u64>,
    pub next_client: nat,
}

#[verifier::ext_equal]
pub struct Room {
    pub members: Map<u64, Member>,
    pub mode: RoomMode,
    pub signal_epoch: u64,
    pub assignment_epoch: u64,
    pub assigned_instance: Option<Text>,
    pub upgrade: Option<Upgrade>,
    pub pending_join: Option<PendingJoin>,
    pub pending_leave: Option<PendingLeave>,
    pub downgrade_deadline: Option<Instant>,
}

#[verifier::ext_equal]
pub struct Worker {
    pub connection_id: Option<u64>,
    pub capacity: Capacity,
    pub health: Option<Health>,
    pub assigned_rooms: Set<u64>,
    pub assigned_clients: usize,
    pub seen_events: Set<u64>,
    pub seen_event_order: Seq<u64>,
    pub disconnect_deadline: Option<Instant>,
}

#[verifier::ext_equal]
pub enum Pending {
    SyncRoom { instance_id: Text, room_id: u64, assignment_epoch: u64, replay: Seq<CommandView> },
    UpgradeJoin { instance_id: Text, join: JoinMember },
    SfuJoin { instance_id: Text, join: JoinMember },
    SfuLeave {
        instance_id: Text,
        room_id: u64,
        client_id: u64,
        lifecycle_id: u64,
        assignment_epoch: u64,
    },
    Signal,
    Cleanup,
}

#[verifier::ext_equal]
pub struct Table {
    pub rooms: Map<u64, Room>,
    pub workers: Map<Text, Worker>,
    pub lifecycle_ids: Map<(u64, u64), u64>,
    pub pending_commands: Map<u64, Pending>,
    pub unacknowledged_commands: Map<u64, CommandView>,
    pub command_workers: Map<u64, Text>,
    pub next_sfu_request_id: u64,
    pub reconnect_grace: Duration,
    pub downgrade_dwell: Duration,
    pub actions: Seq<ActionView>,
}

/// What each member has queued.
pub open spec fn queue_of(members: Map<u64, Member>) -> spec_fn(u64) -> Seq<Text> {
    |c: u64| members[c].queued_messages
}

/// Empties the queue of every member but one.
pub open spec fn drained_for(client_id: u64) -> spec_fn(u64, Member) -> Member {
    |c: u64, m: Member|
        if c == client_id {
            m
        } else {
            Member { queued_messages: Seq::empty(), ..m }
        }
}

impl Member {
    /// A member that was just admitted.
    pub open spec fn admitted(
        now: Instant,
        grace: Duration,
        token: Text,
        is_initiator: bool,
        lifecycle_id: u64,
    ) -> Member {
        Member {
            token,
            is_initiator,
            lifecycle_id,
            registered: false,
            reconnect_deadline: Some(now.later(grace)),
            queued_messages: Seq::empty(),
        }
    }

    /// The member without queued messages, as offerer or not.
    pub open spec fn reset(self, is_initiator: bool) -> Member {
        Member { is_initiator, queued_messages: Seq::empty(), ..self }
    }

    pub open spec fn expired(self, now: Instant) -> bool {
        reached(self.reconnect_deadline, now)
    }
}

impl Room {
    /// A room in which one client waits.
    pub open spec fn of_one(client_id: u64, member: Member) -> Room {
        Room {
            members: Map::empty().insert(client_id, member),
            mode: RoomMode::P2p,
            signal_epoch: 0,
            assignment_epoch: 0,
            assigned_instance: None,
            upgrade: None,
            pending_join: None,
            pending_leave: None,
            downgrade_deadline: None,
        }
    }

    pub open spec fn has(self, client_id: u64) -> bool {
        self.members.contains_key(client_id)
    }

    pub open spec fn with_member(self, client_id: u64, member: Member) -> Room {
        Room { members: self.members.insert(client_id, member), ..self }
    }

    pub open spec fn without_member(self, client_id: u64) -> Room {
        Room { members: self.members.remove(client_id), ..self }
    }

    /// The clients in ascending order.
    pub open spec fn clients(self) -> Seq<u64> {
        ord_map::in_order::<u64>(self.members.dom())
    }

    /// The clients but one, in ascending order.
    pub open spec fn others(self, client_id: u64) -> Seq<u64> {
        self.clients().filter(other_than(client_id))
    }

    /// The clients whose reconnect deadline has been reached, in ascending order.
    pub open spec fn expired_clients(self, now: Instant) -> Seq<u64> {
        self.clients().filter(|c: u64| self.members[c].expired(now))
    }

    /// The members as a worker sees them.
    pub open spec fn projections(self) -> Seq<MemberProjection> {
        self.clients().map_values(
            |c: u64| MemberProjection { client_id: c, lifecycle_id: self.members[c].lifecycle_id },
        )
    }

    /// What the other members have queued, in ascending order of the members.
    pub open spec fn queued_by_others(self, client_id: u64) -> Seq<Text> {
        self.others(client_id).map_values(queue_of(self.members)).flatten()
    }

    /// The room with the queues of all members but one emptied.
    pub open spec fn with_queues_drained(self, client_id: u64) -> Room {
        Room {
            members: self.members.map_entries(drained_for(client_id)),
            ..self
        }
    }

    /// The room with every queue emptied and `initiator`, if any, as the one
    /// member that offers.
    pub open spec fn with_initiator(self, initiator: Option<u64>) -> Room {
        Room {
            members: self.members.map_entries(
                |c: u64, m: Member| m.reset(initiator == Some(c)),
            ),
            ..self
        }
    }

    /// A stable SFU room that is small enough to run as direct P2P.
    pub open spec fn downgrade_eligible(self) -> bool {
        &&& self.mode == RoomMode::Sfu
        &&& 0 < self.members.dom().len() <= MAX_P2P_MEMBERS
        &&& self.upgrade is None
        &&& self.pending_join is None
        &&& self.pending_leave is None
    }

    /// Whether exactly one member is left of a P2P or SFU room.
    pub open spec fn has_survivor(self) -> bool {
        (self.mode == RoomMode::P2p || self.mode == RoomMode::Sfu) && self.members.dom().len() == 1
    }

    /// The room with its survivor, if any, as offerer.
    pub open spec fn promoted(self) -> Room {
        if self.has_survivor() {
            let c = self.clients()[0];
            self.with_member(c, self.members[c].reset(true))
        } else {
            self
        }
    }

    /// The news for the survivor, if it is connected.
    pub open spec fn promotion(self, room_id: u64) -> Option<Promotion> {
        let c = self.clients()[0];
        if self.has_survivor() && self.members[c].registered {
            Some(Promotion { room_id, client_id: c, signal_epoch: self.signal_epoch })
        } else {
            None
        }
    }

    /// The room without the members whose reconnect deadline has been reached.
    pub open spec fn without_expired(self, now: Instant) -> Room {
        Room {
            members: self.members.restrict(
                Set::new(|c: u64| self.has(c) && !self.members[c].expired(now)),
            ),
            ..self
        }
    }

    /// The members that have a browser connected.
    pub open spec fn registered(self) -> Set<u64> {
        self.members.dom().filter(is_registered(self.members))
    }

    /// Whether the reconnect deadline of a member is watched and stands at `t`.
    pub open spec fn is_member_deadline(self, client_id: u64, t: Instant) -> bool {
        &&& self.watches_members()
        &&& self.has(client_id)
        &&& self.members[client_id].reconnect_deadline == Some(t)
    }

    /// Whether the reconnect deadlines of the members are watched.
    pub open spec fn watches_members(self) -> bool {
        ||| self.mode == RoomMode::P2p
        ||| self.mode == RoomMode::Sfu && self.pending_leave is None
    }
}

impl Worker {
    pub open spec fn connected_new(connection_id: u64, capacity: Capacity) -> Worker {
        Worker {
            connection_id: Some(connection_id),
            capacity,
            health: None,
            assigned_rooms: Set::empty(),
            assigned_clients: 0,
            seen_events: Set::empty(),
            seen_event_order: Seq::empty(),
            disconnect_deadline: None,
        }
    }

    pub open spec fn ready(self) -> bool {
        &&& self.connection_id is Some
        &&& self.health matches Some(health) && health.state == State::Ready
    }

    /// Whether the worker can take one more room with so many clients.
    pub open spec fn can_host(self, additional_clients: usize) -> bool {
        &&& self.ready()
        &&& self.assigned_rooms.len() < self.capacity.max_rooms
        &&& capped_sum(self.assigned_clients, additional_clients) <= self.capacity.max_clients
    }

    /// The worker after an event with a new number.
    pub open spec fn after_event(self, request_id: u64) -> Worker {
        let order = self.seen_event_order.push(request_id);
        let seen = self.seen_events.insert(request_id);
        if order.len() > EVENT_DEDUP_CAPACITY {
            Worker {
                seen_events: seen.remove(order[0]),
                seen_event_order: order.skip(1),
                ..self
            }
        } else {
            Worker { seen_events: seen, seen_event_order: order, ..self }
        }
    }

    /// The worker once a room with so many clients has left it.
    pub open spec fn released(self, room_id: u64, clients: nat) -> Worker {
        Worker {
            assigned_rooms: self.assigned_rooms.remove(room_id),
            assigned_clients: capped_difference(self.assigned_clients, clients),
            ..self
        }
    }
}

/// The number of the next stay of a client in a room.
pub open spec fn next_lifecycle_in(
    lifecycle_ids: Map<(u64, u64), u64>,
    room_id: u64,
    client_id: u64,
) -> u64 {
    if lifecycle_ids.contains_key((room_id, client_id)) {
        increment(lifecycle_ids[(room_id, client_id)])
    } else {
        1
    }
}

/// How many members each room has.
pub open spec fn member_counts(rooms: Map<u64, Room>) -> spec_fn(u64) -> nat {
    |r: u64| rooms[r].members.dom().len()
}

/// How many members of each room have a browser connected.
pub open spec fn registered_counts(rooms: Map<u64, Room>) -> spec_fn(u64) -> nat {
    |r: u64| rooms[r].registered().len()
}

/// Which members have a browser connected.
pub open spec fn is_registered(members: Map<u64, Member>) -> spec_fn(u64) -> bool {
    |c: u64| members[c].registered
}

/// Which workers are connected.
pub open spec fn is_connected(workers: Map<Text, Worker>) -> spec_fn(Text) -> bool {
    |i: Text| workers[i].connection_id is Some
}

/// Which workers are connected and say that they are ready.
pub open spec fn is_ready(workers: Map<Text, Worker>) -> spec_fn(Text) -> bool {
    |i: Text| workers[i].ready()
}

/// Why a worker did not do what it was asked.
pub open spec fn failure_reason(result: Result<CommandOk, ErrorView>) -> Text {
    match result {
        Ok(_) => "INVALID_COMMAND_RESULT"@,
        Err(error) => error.reason,
    }
}

/// The room that a command speaks of.
pub open spec fn command_room(command: CommandView) -> u64 {
    match command.command {
        CommandKindView::SyncRoom(c) => c.room_id,
        CommandKindView::Join(c) => c.room_id,
        CommandKindView::Leave(c) => c.room_id,
        CommandKindView::Signal(c) => c.room_id,
    }
}

impl Table {
    pub open spec fn initial(reconnect_grace: Duration) -> Table {
        Table {
            rooms: Map::empty(),
            workers: Map::empty(),
            lifecycle_ids: Map::empty(),
            pending_commands: Map::empty(),
            unacknowledged_commands: Map::empty(),
            command_workers: Map::empty(),
            next_sfu_request_id: 1,
            reconnect_grace,
            downgrade_dwell: Duration { nanos: DOWNGRADE_DWELL_NANOS },
            actions: Seq::empty(),
        }
    }

    /// The table after everything but the counters and settings was dropped.
    pub open spec fn cleared(self) -> Table {
        Table {
            rooms: Map::empty(),
            workers: Map::empty(),
            pending_commands: Map::empty(),
            unacknowledged_commands: Map::empty(),
            command_workers: Map::empty(),
            actions: Seq::empty(),
            ..self
        }
    }

    pub open spec fn finite(self) -> bool {
        &&& self.rooms.dom().finite()
        &&& self.workers.dom().finite()
        &&& self.lifecycle_ids.dom().finite()
        &&& self.pending_commands.dom().finite()
        &&& self.unacknowledged_commands.dom().finite()
        &&& self.command_workers.dom().finite()
        &&& forall|r: u64| #[trigger]
            self.rooms.contains_key(r) ==> self.rooms[r].members.dom().finite()
        &&& forall|i: Text| #[trigger]
            self.workers.contains_key(i) ==> self.workers[i].assigned_rooms.finite()
                && self.workers[i].seen_events.finite()
    }

    pub open spec fn is_member(self, room_id: u64, client_id: u64) -> bool {
        self.rooms.contains_key(room_id) && self.rooms[room_id].has(client_id)
    }

    pub open spec fn with_room(self, room_id: u64, room: Room) -> Table {
        Table { rooms: self.rooms.insert(room_id, room), ..self }
    }

    pub open spec fn without_room(self, room_id: u64) -> Table {
        Table { rooms: self.rooms.remove(room_id), ..self }
    }

    /// The table with the room in it, or without it where nobody is left.
    pub open spec fn with_room_unless_empty(self, room_id: u64, room: Room) -> Table {
        if room.members.dom().len() == 0 {
            self.without_room(room_id)
        } else {
            self.with_room(room_id, room)
        }
    }

    pub open spec fn with_worker(self, instance_id: Text, worker: Worker) -> Table {
        Table { workers: self.workers.insert(instance_id, worker), ..self }
    }

    pub open spec fn with_action(self, action: ActionView) -> Table {
        Table { actions: self.actions.push(action), ..self }
    }

    /// The connection of a worker that is known and connected.
    pub open spec fn connection(self, instance_id: Text) -> Option<u64> {
        if self.workers.contains_key(instance_id) {
            self.workers[instance_id].connection_id
        } else {
            None
        }
    }

    /// The worker that serves a room, with its connection.
    pub open spec fn serving(self, room: Room) -> Option<(Text, u64)> {
        match room.assigned_instance {
            Some(instance_id) => match self.connection(instance_id) {
                Some(connection_id) => Some((instance_id, connection_id)),
                None => None,
            },
            None => None,
        }
    }

    pub open spec fn next_lifecycle(self, room_id: u64, client_id: u64) -> u64 {
        next_lifecycle_in(self.lifecycle_ids, room_id, client_id)
    }

    pub open spec fn with_lifecycle(self, room_id: u64, client_id: u64) -> Table {
        Table {
            lifecycle_ids: self.lifecycle_ids.insert(
                (room_id, client_id),
                self.next_lifecycle(room_id, client_id),
            ),
            ..self
        }
    }

    /// A command was sent to a worker and waits for its result.
    pub open spec fn queued(
        self,
        instance_id: Text,
        connection_id: u64,
        command: CommandView,
        pending: Pending,
    ) -> Table {
        Table {
            pending_commands: self.pending_commands.insert(command.request_id, pending),
            command_workers: self.command_workers.insert(command.request_id, instance_id),
            unacknowledged_commands: self.unacknowledged_commands.insert(
                command.request_id,
                command,
            ),
            actions: self.actions.push(
                ActionView::Sfu(OutputView::Command { connection_id, command }),
            ),
            ..self
        }
    }

    /// A command under the next number was sent to a worker.
    pub open spec fn commanded(
        self,
        instance_id: Text,
        connection_id: u64,
        kind: CommandKindView,
        pending: Pending,
    ) -> Table {
        Table { next_sfu_request_id: increment(self.next_sfu_request_id), ..self }.queued(
            instance_id,
            connection_id,
            CommandView { request_id: self.next_sfu_request_id, command: kind },
            pending,
        )
    }

    // Admission

    pub open spec fn admit_client(
        self,
        authority_request_id: u64,
        now: Instant,
        room_id: u64,
        client_id: u64,
        token: Text,
    ) -> (Table, Result<AdmissionResultView, Text>) {
        if self.is_member(room_id, client_id) {
            (self, Err("DUPLICATE_CLIENT"@))
        } else if !self.rooms.contains_key(room_id) {
            let member = self.admitted_member(now, room_id, client_id, token, true);
            (
                self.with_lifecycle(room_id, client_id).with_room(
                    room_id,
                    Room::of_one(client_id, member),
                ),
                Ok(AdmissionResultView::direct(0, token, true)),
            )
        } else {
            let room = self.rooms[room_id];
            let member = self.admitted_member(now, room_id, client_id, token, false);
            match room.mode {
                RoomMode::Upgrading => (self, Err("ROOM_TRANSITION"@)),
                RoomMode::Failed => (self, Err("WORKER_UNAVAILABLE"@)),
                RoomMode::Sfu => if room.pending_join is Some || room.pending_leave is Some {
                    (self, Err("ROOM_TRANSITION"@))
                } else {
                    self.admit_to_sfu(authority_request_id, now, room_id, client_id, token)
                },
                RoomMode::P2p => if room.members.dom().len() < MAX_P2P_MEMBERS {
                    (
                        self.with_lifecycle(room_id, client_id).with_room(
                            room_id,
                            room.with_member(client_id, member),
                        ),
                        Ok(AdmissionResultView::direct(room.signal_epoch, token, false)),
                    )
                } else {
                    match self.selected_worker(3) {
                        None => (self, Err("NO_SFU_AVAILABLE"@)),
                        Some(instance_id) => (
                            self.upgrading(
                                authority_request_id,
                                room_id,
                                client_id,
                                member,
                                instance_id,
                            ).issue_next_upgrade_join(room_id).0,
                            Ok(AdmissionResultView::Pending),
                        ),
                    }
                },
            }
        }
    }

    pub open spec fn admitted_member(
        self,
        now: Instant,
        room_id: u64,
        client_id: u64,
        token: Text,
        is_initiator: bool,
    ) -> Member {
        Member::admitted(
            now,
            self.reconnect_grace,
            token,
            is_initiator,
            self.next_lifecycle(room_id, client_id),
        )
    }

    pub open spec fn admit_to_sfu(
        self,
        authority_request_id: u64,
        now: Instant,
        room_id: u64,
        client_id: u64,
        token: Text,
    ) -> (Table, Result<AdmissionResultView, Text>) {
        let room = self.rooms[room_id];
        match self.serving(room) {
            None => (self, Err("WORKER_UNAVAILABLE"@)),
            Some((instance_id, connection_id)) => {
                let member = self.admitted_member(now, room_id, client_id, token, false);
                let join = JoinMember {
                    room_id,
                    client_id,
                    lifecycle_id: member.lifecycle_id,
                    assignment_epoch: room.assignment_epoch,
                };
                (
                    self.with_lifecycle(room_id, client_id).with_room(
                        room_id,
                        Room {
                            pending_join: Some(PendingJoin { authority_request_id, client_id }),
                            downgrade_deadline: None,
                            ..room.with_member(client_id, member)
                        },
                    ).commanded(
                        instance_id,
                        connection_id,
                        CommandKindView::Join(join),
                        Pending::SfuJoin { instance_id, join },
                    ),
                    Ok(AdmissionResultView::Pending),
                )
            },
        }
    }

    /// Whether a worker can take one more room with so many clients.
    pub open spec fn can_host(self, instance_id: Text, additional_clients: usize) -> bool {
        self.workers.contains_key(instance_id) && self.workers[instance_id].can_host(
            additional_clients,
        )
    }

    /// Whether worker `a` carries less than worker `b`: first by clients, then
    /// by rooms, then by name.
    pub open spec fn less_loaded(self, a: Text, b: Text) -> bool {
        let x = self.workers[a];
        let y = self.workers[b];
        ||| x.assigned_clients < y.assigned_clients
        ||| x.assigned_clients == y.assigned_clients && x.assigned_rooms.len()
            < y.assigned_rooms.len()
        ||| x.assigned_clients == y.assigned_clients && x.assigned_rooms.len()
            == y.assigned_rooms.len() && crate::key::text_before(a, b)
    }

    /// `instance_id` is the least loaded of the workers that can host.
    pub open spec fn is_best_worker(self, instance_id: Text, additional_clients: usize) -> bool {
        &&& self.can_host(instance_id, additional_clients)
        &&& forall|other: Text| #[trigger]
            self.can_host(other, additional_clients) && other != instance_id ==> self.less_loaded(
                instance_id,
                other,
            )
    }

    /// The least loaded of the workers that can host, if any can.
    pub open spec fn selected_worker(self, additional_clients: usize) -> Option<Text> {
        if exists|i: Text| self.can_host(i, additional_clients) {
            Some(choose|i: Text| self.is_best_worker(i, additional_clients))
        } else {
            None
        }
    }

    /// A room has been assigned to a worker, and its members are to join there:
    /// those that were in it in ascending order, then the new one. All of them
    /// start a new lifecycle.
    pub open spec fn upgrading(
        self,
        authority_request_id: u64,
        room_id: u64,
        client_id: u64,
        member: Member,
        instance_id: Text,
    ) -> Table {
        let room = self.rooms[room_id];
        let worker = self.workers[instance_id];
        Table {
            rooms: self.rooms.insert(
                room_id,
                Room {
                    members: room.members.map_entries(
                        |c: u64, m: Member|
                            Member { lifecycle_id: self.next_lifecycle(room_id, c), ..m },
                    ).insert(client_id, member),
                    mode: RoomMode::Upgrading,
                    assignment_epoch: increment(room.assignment_epoch),
                    assigned_instance: Some(instance_id),
                    upgrade: Some(
                        Upgrade {
                            authority_request_id,
                            joining_client_id: client_id,
                            ordered_clients: room.clients().push(client_id),
                            joined_clients: Seq::empty(),
                            next_client: 0,
                        },
                    ),
                    ..room
                },
            ),
            workers: self.workers.insert(
                instance_id,
                Worker {
                    assigned_rooms: worker.assigned_rooms.insert(room_id),
                    assigned_clients: capped_sum(worker.assigned_clients, 3),
                    ..worker
                },
            ),
            lifecycle_ids: self.lifecycle_ids.union_prefer_right(
                Map::new(
                    |k: (u64, u64)| k.0 == room_id && (k.1 == client_id || room.has(k.1)),
                    |k: (u64, u64)| self.next_lifecycle(k.0, k.1),
                ),
            ),
            ..self
        }
    }

    // Upgrades

    pub open spec fn issue_next_upgrade_join(self, room_id: u64) -> (Table, Result<(), Text>) {
        if !self.rooms.contains_key(room_id) {
            (self, Err("ROOM_NOT_FOUND"@))
        } else {
            let room = self.rooms[room_id];
            match room.upgrade {
                None => (self, Err("ROOM_TRANSITION"@)),
                Some(upgrade) => {
                    let client_id = upgrade.ordered_clients[upgrade.next_client as int];
                    if !room.has(client_id) {
                        (self, Err("CLIENT_NOT_FOUND"@))
                    } else {
                        match self.serving(room) {
                            None => (self, Err("WORKER_UNAVAILABLE"@)),
                            Some((instance_id, connection_id)) => {
                                let join = JoinMember {
                                    room_id,
                                    client_id,
                                    lifecycle_id: room.members[client_id].lifecycle_id,
                                    assignment_epoch: room.assignment_epoch,
                                };
                                (
                                    self.commanded(
                                        instance_id,
                                        connection_id,
                                        CommandKindView::Join(join),
                                        Pending::UpgradeJoin { instance_id, join },
                                    ),
                                    Ok(()),
                                )
                            },
                        }
                    }
                },
            }
        }
    }

    /// The room runs on its worker from here on, under a new signal epoch.
    pub open spec fn commit_upgrade(self, room_id: u64, now: Instant) -> (
        Table,
        Result<(), Text>,
    ) {
        if !self.rooms.contains_key(room_id) {
            (self, Err("ROOM_NOT_FOUND"@))
        } else {
            match self.rooms[room_id].upgrade {
                None => (self, Err("ROOM_TRANSITION"@)),
                Some(upgrade) => {
                    let room = Room {
                        mode: RoomMode::Sfu,
                        signal_epoch: increment(self.rooms[room_id].signal_epoch),
                        upgrade: None,
                        ..self.rooms[room_id].with_initiator(None)
                    };
                    let joining = upgrade.joining_client_id;
                    let t = self.with_room(room_id, room).arm_downgrade(room_id, now);
                    if !room.has(joining) {
                        (t, Err("CLIENT_NOT_FOUND"@))
                    } else {
                        (
                            t.with_action(
                                ActionView::Upgraded {
                                    room_id,
                                    signal_epoch: room.signal_epoch,
                                    existing_clients: room.others(joining),
                                },
                            ).with_action(
                                ActionView::AdmissionCompleted {
                                    authority_request_id: upgrade.authority_request_id,
                                    result: Ok(
                                        AdmissionView::relayed(
                                            room.signal_epoch,
                                            room.members[joining].token,
                                        ),
                                    ),
                                },
                            ),
                            Ok(()),
                        )
                    }
                },
            }
        }
    }

    /// The room is a P2P room again, without the client that was to join.
    pub open spec fn abort_upgrade(self, room_id: u64, reason: Text) -> (Table, Result<(), Text>) {
        if !self.rooms.contains_key(room_id) {
            (self, Err("ROOM_NOT_FOUND"@))
        } else {
            let room = self.rooms[room_id];
            match room.upgrade {
                None => (self, Err("ROOM_TRANSITION"@)),
                Some(upgrade) => {
                    let t = self.with_room(
                        room_id,
                        Room {
                            mode: RoomMode::P2p,
                            assigned_instance: None,
                            upgrade: None,
                            ..room.without_member(upgrade.joining_client_id)
                        },
                    );
                    match room.assigned_instance {
                        None => (t, Err("WORKER_UNAVAILABLE"@)),
                        Some(instance_id) => {
                            let (u, complete) = t.released(
                                instance_id,
                                room_id,
                                3,
                            ).leave_joined(
                                instance_id,
                                self.connection(instance_id),
                                room_id,
                                upgrade.joined_clients,
                            );
                            if !complete {
                                (u, Err("CLIENT_NOT_FOUND"@))
                            } else {
                                (
                                    u.with_action(
                                        ActionView::AdmissionCompleted {
                                            authority_request_id: upgrade.authority_request_id,
                                            result: Err(
                                                if reason.len() == 0 {
                                                    "WORKER_UNAVAILABLE"@
                                                } else {
                                                    reason
                                                },
                                            ),
                                        },
                                    ),
                                    Ok(()),
                                )
                            }
                        },
                    }
                },
            }
        }
    }

    /// A worker, if it is known, no longer has the room.
    pub open spec fn released(self, instance_id: Text, room_id: u64, clients: nat) -> Table {
        if self.workers.contains_key(instance_id) {
            self.with_worker(instance_id, self.workers[instance_id].released(room_id, clients))
        } else {
            self
        }
    }

    /// A worker was told that a member has left because the room closed there.
    pub open spec fn leave_closed(
        self,
        instance_id: Text,
        connection_id: u64,
        room_id: u64,
        assignment_epoch: u64,
        member: MemberProjection,
    ) -> Table {
        self.commanded(
            instance_id,
            connection_id,
            CommandKindView::Leave(
                LeaveMember {
                    room_id,
                    client_id: member.client_id,
                    lifecycle_id: member.lifecycle_id,
                    assignment_epoch,
                    reason: LeaveReason::RoomClosed,
                },
            ),
            Pending::Cleanup,
        )
    }

    /// A connected worker was told that the clients which had joined have left
    /// again, up to the first that is no longer a member.
    pub open spec fn leave_joined(
        self,
        instance_id: Text,
        connection: Option<u64>,
        room_id: u64,
        joined: Seq<u64>,
    ) -> (Table, bool)
        decreases joined.len(),
    {
        match connection {
            None => (self, true),
            Some(connection_id) => if joined.len() == 0 {
                (self, true)
            } else {
                let (t, complete) = self.leave_joined(
                    instance_id,
                    connection,
                    room_id,
                    joined.drop_last(),
                );
                let client_id = joined.last();
                if complete && t.is_member(room_id, client_id) {
                    let room = t.rooms[room_id];
                    (
                        t.leave_closed(
                            instance_id,
                            connection_id,
                            room_id,
                            room.assignment_epoch,
                            MemberProjection {
                                client_id,
                                lifecycle_id: room.members[client_id].lifecycle_id,
                            },
                        ),
                        true,
                    )
                } else {
                    (t, false)
                }
            },
        }
    }

    /// Where the clients that had joined are worked off only up to some place,
    /// the rest changes nothing.
    pub proof fn lemma_leave_joined_stops(
        self,
        instance_id: Text,
        connection: Option<u64>,
        room_id: u64,
        joined: Seq<u64>,
        n: int,
    )
        requires
            0 <= n <= joined.len(),
            !self.leave_joined(instance_id, connection, room_id, joined.take(n)).1,
        ensures
            self.leave_joined(instance_id, connection, room_id, joined) == self.leave_joined(
                instance_id,
                connection,
                room_id,
                joined.take(n),
            ),
        decreases joined.len(),
    {
        if n == joined.len() {
            assert(joined.take(n) =~= joined);
        } else {
            assert(joined.drop_last().take(n) =~= joined.take(n));
            self.lemma_leave_joined_stops(instance_id, connection, room_id, joined.drop_last(), n);
        }
    }

    // Downgrades

    /// The room keeps or gets a deadline for its downgrade if it is eligible,
    /// and has none otherwise.
    pub open spec fn arm_downgrade(self, room_id: u64, now: Instant) -> Table {
        if !self.rooms.contains_key(room_id) {
            self
        } else {
            let room = self.rooms[room_id];
            self.with_room(
                room_id,
                Room {
                    downgrade_deadline: if !room.downgrade_eligible() {
                        None
                    } else if room.downgrade_deadline is Some {
                        room.downgrade_deadline
                    } else {
                        Some(now.later(self.downgrade_dwell))
                    },
                    ..room
                },
            )
        }
    }

    /// The room is a direct P2P room again, under a new signal epoch, with the
    /// lowest client as offerer; its worker is told and released.
    pub open spec fn commit_downgrade(self, room_id: u64) -> (Table, Result<(), Text>) {
        if !self.rooms.contains_key(room_id) {
            (self, Err("ROOM_NOT_FOUND"@))
        } else {
            let old = self.rooms[room_id];
            let room = Room {
                mode: RoomMode::P2p,
                signal_epoch: increment(old.signal_epoch),
                downgrade_deadline: None,
                assigned_instance: None,
                ..old
            };
            if old.members.dom().len() == 0 {
                (self.with_room(room_id, room), Err("CLIENT_NOT_FOUND"@))
            } else {
                let initiator = old.clients()[0];
                let t = self.with_room(room_id, room.with_initiator(Some(initiator)));
                let u = match old.assigned_instance {
                    None => t,
                    Some(instance_id) => t.released(
                        instance_id,
                        room_id,
                        old.members.dom().len(),
                    ).leave_all(
                        instance_id,
                        self.connection(instance_id),
                        room_id,
                        old.assignment_epoch,
                        old.projections(),
                    ),
                };
                (
                    u.with_action(
                        ActionView::Downgraded {
                            room_id,
                            signal_epoch: room.signal_epoch,
                            initiator_client_id: initiator,
                            clients: old.clients(),
                        },
                    ),
                    Ok(()),
                )
            }
        }
    }

    /// A connected worker was told that all these members have left.
    pub open spec fn leave_all(
        self,
        instance_id: Text,
        connection: Option<u64>,
        room_id: u64,
        assignment_epoch: u64,
        members: Seq<MemberProjection>,
    ) -> Table
        decreases members.len(),
    {
        match connection {
            None => self,
            Some(connection_id) => if members.len() == 0 {
                self
            } else {
                self.leave_all(
                    instance_id,
                    connection,
                    room_id,
                    assignment_epoch,
                    members.drop_last(),
                ).leave_closed(instance_id, connection_id, room_id, assignment_epoch, members.last())
            },
        }
    }

    // Browsers

    pub open spec fn register(self, room_id: u64, client_id: u64, token: Text) -> (
        Table,
        Result<RegistrationView, Text>,
    ) {
        if !self.rooms.contains_key(room_id) {
            (self, Err("UNAUTHORIZED"@))
        } else {
            let room = self.rooms[room_id];
            if room.mode == RoomMode::Upgrading {
                (self, Err("ROOM_TRANSITION"@))
            } else if !room.has(client_id) || room.members[client_id].token != token {
                (self, Err("UNAUTHORIZED"@))
            } else if room.members[client_id].registered {
                (self, Err("Duplicated registration"@))
            } else {
                let member = room.members[client_id];
                let here = room.with_member(
                    client_id,
                    Member { registered: true, reconnect_deadline: None, ..member },
                );
                let direct = room.mode == RoomMode::P2p;
                (
                    self.with_room(
                        room_id,
                        if direct {
                            here.with_queues_drained(client_id)
                        } else {
                            here
                        },
                    ),
                    Ok(
                        RegistrationView {
                            mode: room.mode,
                            signal_epoch: room.signal_epoch,
                            is_initiator: if direct {
                                Some(member.is_initiator)
                            } else {
                                None
                            },
                            queued_messages: if direct {
                                room.queued_by_others(client_id)
                            } else {
                                Seq::empty()
                            },
                        },
                    ),
                )
            }
        }
    }

    /// The registered client is gone: it leaves its worker at once, or else has
    /// the reconnect grace to come back.
    pub open spec fn deregister(self, now: Instant, room_id: u64, client_id: u64) -> Table {
        if !self.is_member(room_id, client_id)
            || !self.rooms[room_id].members[client_id].registered {
            self
        } else {
            let room = self.rooms[room_id];
            let t = self.with_room(
                room_id,
                room.with_member(
                    client_id,
                    Member { registered: false, ..room.members[client_id] },
                ),
            );
            match t.issue_sfu_leave(room_id, client_id, LeaveReason::Disconnected) {
                Some(u) => u,
                None => t.with_grace(now, room_id, client_id),
            }
        }
    }

    /// A member has the reconnect grace, counted from now, to come back.
    pub open spec fn with_grace(self, now: Instant, room_id: u64, client_id: u64) -> Table {
        let room = self.rooms[room_id];
        self.with_room(
            room_id,
            room.with_member(
                client_id,
                Member {
                    reconnect_deadline: Some(now.later(self.reconnect_grace)),
                    ..room.members[client_id]
                },
            ),
        )
    }

    /// The worker of an SFU room was told that a member has left, if it can be
    /// told and no other leave is under way.
    pub open spec fn issue_sfu_leave(
        self,
        room_id: u64,
        client_id: u64,
        reason: LeaveReason,
    ) -> Option<Table> {
        let room = self.rooms[room_id];
        if !self.is_member(room_id, client_id) || room.mode != RoomMode::Sfu
            || room.pending_leave is Some {
            None
        } else {
            match self.serving(room) {
                None => None,
                Some((instance_id, connection_id)) => Some(
                    self.leaving(room_id, client_id, None, reason, instance_id, connection_id),
                ),
            }
        }
    }

    /// The leave of a member is under way at the worker of the room.
    pub open spec fn leaving(
        self,
        room_id: u64,
        client_id: u64,
        authority_request_id: Option<u64>,
        reason: LeaveReason,
        instance_id: Text,
        connection_id: u64,
    ) -> Table {
        let room = self.rooms[room_id];
        let lifecycle_id = room.members[client_id].lifecycle_id;
        let assignment_epoch = room.assignment_epoch;
        self.with_room(
            room_id,
            Room { pending_leave: Some(PendingLeave { authority_request_id, client_id }), ..room },
        ).commanded(
            instance_id,
            connection_id,
            CommandKindView::Leave(
                LeaveMember { room_id, client_id, lifecycle_id, assignment_epoch, reason },
            ),
            Pending::SfuLeave { instance_id, room_id, client_id, lifecycle_id, assignment_epoch },
        )
    }

    pub open spec fn send(self, room_id: u64, client_id: u64, signal_epoch: u64, message: Text) -> (
        Table,
        Result<SendResultView, Text>,
    ) {
        if !self.rooms.contains_key(room_id) {
            (self, Err("CLIENT_NOT_FOUND"@))
        } else {
            let room = self.rooms[room_id];
            if room.signal_epoch != signal_epoch || room.mode == RoomMode::Upgrading {
                (self, Ok(SendResultView::Dropped))
            } else if !room.has(client_id) {
                (self, Err("CLIENT_NOT_FOUND"@))
            } else if room.mode == RoomMode::Sfu {
                self.send_to_worker(room_id, client_id, message)
            } else {
                let others = room.others(client_id);
                if others.len() > 0 && room.members[others[0]].registered {
                    (
                        self,
                        Ok(
                            SendResultView::P2p(
                                Some(DeliveryView { room_id, client_id: others[0], message }),
                            ),
                        ),
                    )
                } else {
                    self.queue_message(room_id, client_id, message)
                }
            }
        }
    }

    pub open spec fn send_to_worker(self, room_id: u64, client_id: u64, message: Text) -> (
        Table,
        Result<SendResultView, Text>,
    ) {
        let room = self.rooms[room_id];
        match self.serving(room) {
            None => (self, Err("WORKER_UNAVAILABLE"@)),
            Some((instance_id, connection_id)) => (
                self.commanded(
                    instance_id,
                    connection_id,
                    CommandKindView::Signal(
                        SignalView {
                            room_id,
                            client_id,
                            lifecycle_id: room.members[client_id].lifecycle_id,
                            assignment_epoch: room.assignment_epoch,
                            message_json: message,
                            sdp_request_id: None,
                        },
                    ),
                    Pending::Signal,
                ),
                Ok(SendResultView::Sfu),
            ),
        }
    }

    /// The message waits with its sender, unless too many already do.
    pub open spec fn queue_message(self, room_id: u64, client_id: u64, message: Text) -> (
        Table,
        Result<SendResultView, Text>,
    ) {
        let room = self.rooms[room_id];
        let member = room.members[client_id];
        if member.queued_messages.len() >= MAX_QUEUED_MESSAGES {
            (self, Err("RESOURCE_EXHAUSTED"@))
        } else {
            (
                self.with_room(
                    room_id,
                    room.with_member(
                        client_id,
                        Member {
                            queued_messages: member.queued_messages.push(message),
                            ..member
                        },
                    ),
                ),
                Ok(SendResultView::P2p(None)),
            )
        }
    }

    pub open spec fn remove(
        self,
        authority_request_id: u64,
        room_id: u64,
        client_id: u64,
        token: Text,
    ) -> (Table, Result<RemovalResult, Text>) {
        if !self.rooms.contains_key(room_id) {
            (self, Err("ROOM_NOT_FOUND"@))
        } else {
            let room = self.rooms[room_id];
            if !room.has(client_id) {
                (self, Err("CLIENT_NOT_FOUND"@))
            } else if room.members[client_id].token != token {
                (self, Err("UNAUTHORIZED"@))
            } else if room.mode == RoomMode::Upgrading || room.pending_join is Some
                || room.pending_leave is Some {
                (self, Err("ROOM_TRANSITION"@))
            } else if room.mode == RoomMode::Sfu {
                match self.serving(room) {
                    None => (self, Err("WORKER_UNAVAILABLE"@)),
                    Some((instance_id, connection_id)) => (
                        self.leaving(
                            room_id,
                            client_id,
                            Some(authority_request_id),
                            LeaveReason::User,
                            instance_id,
                            connection_id,
                        ),
                        Ok(RemovalResult::Pending),
                    ),
                }
            } else {
                let left = room.without_member(client_id);
                (
                    self.with_room_unless_empty(room_id, left.promoted()),
                    Ok(RemovalResult::Complete(left.promotion(room_id))),
                )
            }
        }
    }

    // Workers

    pub open spec fn handle_sfu_input(self, input: InputView) -> (Table, Result<(), Text>) {
        match input {
            InputView::Register { connection_id, instance_id, request_id, capacity } => (
                self.register_worker(connection_id, instance_id, request_id, capacity),
                Ok(()),
            ),
            InputView::CommandResult { connection_id, instance_id, result, now } => {
                self.handle_command_result(connection_id, instance_id, result, now)
            },
            InputView::Event { connection_id, instance_id, event } => {
                self.handle_worker_event(connection_id, instance_id, event)
            },
            InputView::Disconnected { connection_id, instance_id, now } => (
                self.worker_disconnected(connection_id, instance_id, now),
                Ok(()),
            ),
        }
    }

    /// A worker that lost its current connection has the reconnect grace to
    /// come back.
    pub open spec fn worker_disconnected(
        self,
        connection_id: u64,
        instance_id: Text,
        now: Instant,
    ) -> Table {
        if self.connection(instance_id) == Some(connection_id) {
            self.with_worker(
                instance_id,
                Worker {
                    connection_id: None,
                    health: None,
                    disconnect_deadline: Some(now.later(self.reconnect_grace)),
                    ..self.workers[instance_id]
                },
            )
        } else {
            self
        }
    }

    pub open spec fn register_worker(
        self,
        connection_id: u64,
        instance_id: Text,
        request_id: u64,
        capacity: Capacity,
    ) -> Table {
        if instance_id.len() == 0 || request_id == 0 || capacity.max_rooms == 0
            || capacity.max_clients == 0 {
            self.with_action(
                ActionView::Sfu(
                    OutputView::RegistrationError {
                        connection_id,
                        request_id,
                        error: ErrorView { reason: "INVALID_REQUEST"@, retryable: false },
                    },
                ),
            )
        } else {
            let t = self.worker_connected(
                connection_id,
                instance_id,
                request_id,
                capacity,
            ).without_syncs(instance_id);
            t.sync_rooms(
                instance_id,
                connection_id,
                ord_map::in_order::<u64>(t.workers[instance_id].assigned_rooms),
            )
        }
    }

    /// The worker is known under its new connection; a connection that it
    /// replaces is closed.
    pub open spec fn worker_connected(
        self,
        connection_id: u64,
        instance_id: Text,
        request_id: u64,
        capacity: Capacity,
    ) -> Table {
        let resumed = self.workers.contains_key(instance_id);
        let worker = if resumed {
            Worker {
                connection_id: Some(connection_id),
                capacity,
                health: None,
                disconnect_deadline: None,
                ..self.workers[instance_id]
            }
        } else {
            Worker::connected_new(connection_id, capacity)
        };
        let t = self.with_worker(instance_id, worker);
        let u = match self.connection(instance_id) {
            Some(old) if old != connection_id => t.with_action(
                ActionView::Sfu(OutputView::Close { connection_id: old }),
            ),
            _ => t,
        };
        u.with_action(
            ActionView::Sfu(
                OutputView::Registered {
                    connection_id,
                    request_id,
                    health_interval_ms: HEALTH_INTERVAL_MS,
                    resumed,
                },
            ),
        )
    }

    /// Whether a pending command is a synchronization with a worker.
    pub open spec fn is_sync_with(self, request_id: u64, instance_id: Text) -> bool {
        &&& self.pending_commands.contains_key(request_id)
        &&& self.pending_commands[request_id] matches Pending::SyncRoom { instance_id: i, .. }
        &&& i == instance_id
    }

    /// No synchronization with the worker is waited for.
    pub open spec fn without_syncs(self, instance_id: Text) -> Table {
        self.without_commands(self.syncs_with(instance_id))
    }

    /// The pending synchronizations with a worker.
    pub open spec fn syncs_with(self, instance_id: Text) -> Set<u64> {
        Set::new(|id: u64| self.is_sync_with(id, instance_id))
    }

    /// The commands that a worker was sent.
    pub open spec fn commands_of(self, instance_id: Text) -> Set<u64> {
        Set::new(
            |id: u64|
                self.command_workers.contains_key(id) && self.command_workers[id] == instance_id,
        )
    }

    /// These commands are no longer waited for.
    pub open spec fn without_commands(self, ids: Set<u64>) -> Table {
        Table {
            pending_commands: self.pending_commands.remove_keys(ids),
            unacknowledged_commands: self.unacknowledged_commands.remove_keys(ids),
            command_workers: self.command_workers.remove_keys(ids),
            ..self
        }
    }

    /// The worker was sent the state of each of these rooms.
    pub open spec fn sync_rooms(self, instance_id: Text, connection_id: u64, rooms: Seq<u64>) -> Table
        decreases rooms.len(),
    {
        if rooms.len() == 0 {
            self
        } else {
            self.sync_rooms(instance_id, connection_id, rooms.drop_last()).sync_room(
                instance_id,
                connection_id,
                rooms.last(),
            )
        }
    }

    pub open spec fn sync_room(self, instance_id: Text, connection_id: u64, room_id: u64) -> Table {
        if !self.rooms.contains_key(room_id) {
            self
        } else {
            let room = self.rooms[room_id];
            self.commanded(
                instance_id,
                connection_id,
                CommandKindView::SyncRoom(
                    SyncRoomView {
                        room_id,
                        assignment_epoch: room.assignment_epoch,
                        members: room.projections(),
                    },
                ),
                Pending::SyncRoom {
                    instance_id,
                    room_id,
                    assignment_epoch: room.assignment_epoch,
                    replay: self.replay(instance_id, room_id),
                },
            )
        }
    }

    /// Whether a command for the room was sent to the worker without an answer
    /// so far, and is more than a synchronization.
    pub open spec fn to_replay(self, request_id: u64, instance_id: Text, room_id: u64) -> bool {
        &&& self.command_workers[request_id] == instance_id
        &&& !(self.pending_commands.contains_key(request_id)
            && self.pending_commands[request_id] is SyncRoom)
        &&& self.unacknowledged_commands.contains_key(request_id)
        &&& command_room(self.unacknowledged_commands[request_id]) == room_id
    }

    /// The unanswered commands for a room in the order of their numbers.
    pub open spec fn replay(self, instance_id: Text, room_id: u64) -> Seq<CommandView> {
        ord_map::in_order::<u64>(self.command_workers.dom()).filter(
            |id: u64| self.to_replay(id, instance_id, room_id),
        ).map_values(|id: u64| self.unacknowledged_commands[id])
    }

    pub open spec fn handle_worker_event(
        self,
        connection_id: u64,
        instance_id: Text,
        event: EventView,
    ) -> (Table, Result<(), Text>) {
        if !self.workers.contains_key(instance_id) {
            (self, Err("UNKNOWN_SFU"@))
        } else {
            let worker = self.workers[instance_id];
            let request_id = event.request_id;
            let ack = ActionView::Sfu(OutputView::EventAck { connection_id, request_id });
            if worker.connection_id != Some(connection_id) || request_id == 0 {
                (self, Err("STALE_SFU_SESSION"@))
            } else if worker.seen_events.contains(request_id) {
                (self.with_action(ack), Ok(()))
            } else {
                let t = self.with_worker(instance_id, worker.after_event(request_id));
                match event.event {
                    EventKindView::Health(health) => (
                        t.with_worker(
                            instance_id,
                            Worker {
                                capacity: health.capacity,
                                health: Some(health),
                                ..t.workers[instance_id]
                            },
                        ).with_action(ack),
                        Ok(()),
                    ),
                    EventKindView::Signal(signal) => match t.signal_refusal(instance_id, signal) {
                        Some(reason) => (t, Err(reason)),
                        None => (
                            t.with_action(
                                ActionView::Deliver(
                                    DeliveryView {
                                        room_id: signal.room_id,
                                        client_id: signal.client_id,
                                        message: signal.message_json,
                                    },
                                ),
                            ).with_action(ack),
                            Ok(()),
                        ),
                    },
                    EventKindView::Failure { error, room_id, .. } => (
                        (match room_id {
                            Some(room_id) => t.fail_room(room_id, error.reason),
                            None => t,
                        }).with_action(ack),
                        Ok(()),
                    ),
                }
            }
        }
    }

    /// Why a signal of a worker is not for a current member, if it is not.
    pub open spec fn signal_refusal(self, instance_id: Text, signal: SignalView) -> Option<Text> {
        if !self.rooms.contains_key(signal.room_id) {
            Some("ROOM_NOT_FOUND"@)
        } else {
            let room = self.rooms[signal.room_id];
            if !room.has(signal.client_id) {
                Some("CLIENT_NOT_FOUND"@)
            } else if room.mode != RoomMode::Sfu || room.assigned_instance != Some(instance_id)
                || room.assignment_epoch != signal.assignment_epoch
                || room.members[signal.client_id].lifecycle_id != signal.lifecycle_id {
                Some("STALE_ASSIGNMENT"@)
            } else {
                None
            }
        }
    }

    pub open spec fn fail_room(self, room_id: u64, reason: Text) -> Table {
        if self.rooms.contains_key(room_id) {
            let room = self.rooms[room_id];
            self.with_room(room_id, Room { mode: RoomMode::Failed, ..room }).with_action(
                ActionView::RoomFailed { room_id, clients: room.clients(), reason },
            )
        } else {
            self
        }
    }

    pub open spec fn handle_command_result(
        self,
        connection_id: u64,
        instance_id: Text,
        result: CommandResultView,
        now: Instant,
    ) -> (Table, Result<(), Text>) {
        if !self.workers.contains_key(instance_id) {
            (self, Err("UNKNOWN_SFU"@))
        } else if self.workers[instance_id].connection_id != Some(connection_id) {
            (self, Err("STALE_SFU_SESSION"@))
        } else if !self.pending_commands.contains_key(result.request_id) {
            (self, Ok(()))
        } else {
            let t = self.acknowledged(result.request_id);
            match self.pending_commands[result.request_id] {
                Pending::SyncRoom { instance_id: expected, room_id, assignment_epoch, replay } => (
                    t.sync_result(
                        expected == instance_id,
                        room_id,
                        assignment_epoch,
                        replay,
                        connection_id,
                        result.result,
                    ),
                    Ok(()),
                ),
                Pending::UpgradeJoin { instance_id: expected, join } => t.upgrade_join_result(
                    expected == instance_id,
                    join,
                    instance_id,
                    result.result,
                    now,
                ),
                Pending::SfuJoin { instance_id: expected, join } => t.sfu_join_result(
                    expected == instance_id,
                    join,
                    instance_id,
                    result.result,
                    now,
                ),
                Pending::SfuLeave {
                    instance_id: expected,
                    room_id,
                    client_id,
                    lifecycle_id,
                    assignment_epoch,
                } => t.sfu_leave_result(
                    expected == instance_id,
                    room_id,
                    client_id,
                    lifecycle_id,
                    assignment_epoch,
                    instance_id,
                    result.result,
                    now,
                ),
                Pending::Signal => (t, Ok(())),
                Pending::Cleanup => (t, Ok(())),
            }
        }
    }

    /// One command is no longer waited for.
    pub open spec fn acknowledged(self, request_id: u64) -> Table {
        Table {
            pending_commands: self.pending_commands.remove(request_id),
            unacknowledged_commands: self.unacknowledged_commands.remove(request_id),
            command_workers: self.command_workers.remove(request_id),
            ..self
        }
    }

    /// A synchronized room gets its unanswered commands again; one that could
    /// not be synchronized has failed.
    pub open spec fn sync_result(
        self,
        from_expected: bool,
        room_id: u64,
        assignment_epoch: u64,
        replay: Seq<CommandView>,
        connection_id: u64,
        result: Result<CommandOk, ErrorView>,
    ) -> Table {
        let valid = result matches Ok(CommandOk::RoomSynced(synced)) && synced.room_id == room_id
            && synced.assignment_epoch == assignment_epoch;
        if from_expected && valid {
            Table {
                actions: self.actions + replay.map_values(
                    |command: CommandView|
                        ActionView::Sfu(OutputView::Command { connection_id, command }),
                ),
                ..self
            }
        } else {
            self.fail_room(room_id, "WORKER_UNAVAILABLE"@)
        }
    }

    /// Whether the upgrade of a room waits for this join at this worker.
    pub open spec fn awaits_join(self, instance_id: Text, join: JoinMember) -> bool {
        let room = self.rooms[join.room_id];
        &&& self.rooms.contains_key(join.room_id)
        &&& room.assigned_instance == Some(instance_id)
        &&& self.workers.contains_key(instance_id)
        &&& self.workers[instance_id].assigned_rooms.contains(join.room_id)
        &&& room.upgrade matches Some(upgrade) && upgrade.ordered_clients[upgrade.next_client as int]
            == join.client_id
        &&& self.lifecycle_ids.contains_key((join.room_id, join.client_id))
        &&& self.lifecycle_ids[(join.room_id, join.client_id)] == join.lifecycle_id
    }

    /// A member that joined the worker brings the upgrade that waits for it one
    /// step further; one that did not ends it.
    pub open spec fn upgrade_join_result(
        self,
        from_expected: bool,
        join: JoinMember,
        instance_id: Text,
        result: Result<CommandOk, ErrorView>,
        now: Instant,
    ) -> (Table, Result<(), Text>) {
        let room_id = join.room_id;
        if !from_expected || result != Ok::<CommandOk, ErrorView>(CommandOk::MemberJoined(join)) {
            self.abort_upgrade(room_id, failure_reason(result))
        } else if !self.rooms.contains_key(room_id) {
            (self, Err("ROOM_NOT_FOUND"@))
        } else if !self.awaits_join(instance_id, join) {
            (self, Err("ROOM_TRANSITION"@))
        } else {
            let upgrade = self.rooms[room_id].upgrade->0;
            let t = self.with_room(
                room_id,
                Room {
                    upgrade: Some(
                        Upgrade {
                            joined_clients: upgrade.joined_clients.push(join.client_id),
                            next_client: upgrade.next_client + 1,
                            ..upgrade
                        },
                    ),
                    ..self.rooms[room_id]
                },
            );
            if upgrade.next_client + 1 == upgrade.ordered_clients.len() {
                t.commit_upgrade(room_id, now)
            } else {
                t.issue_next_upgrade_join(room_id)
            }
        }
    }

    /// The client that waited for its place on the worker gets the answer; the
    /// room, which no longer waits, may be on its way to a downgrade.
    pub open spec fn sfu_join_result(
        self,
        from_expected: bool,
        join: JoinMember,
        instance_id: Text,
        result: Result<CommandOk, ErrorView>,
        now: Instant,
    ) -> (Table, Result<(), Text>) {
        let room_id = join.room_id;
        if !self.rooms.contains_key(room_id) {
            (self, Err("ROOM_NOT_FOUND"@))
        } else {
            match self.rooms[room_id].pending_join {
                None => (self, Err("ROOM_TRANSITION"@)),
                Some(pending) => {
                    let room = Room { pending_join: None, ..self.rooms[room_id] };
                    if from_expected && result == Ok::<CommandOk, ErrorView>(
                        CommandOk::MemberJoined(join),
                    ) {
                        let t = self.with_room(room_id, room).with_one_client_more(
                            instance_id,
                        ).arm_downgrade(room_id, now);
                        if !room.has(join.client_id) {
                            (t, Err("CLIENT_NOT_FOUND"@))
                        } else {
                            (
                                t.with_action(
                                    ActionView::AdmissionCompleted {
                                        authority_request_id: pending.authority_request_id,
                                        result: Ok(
                                            AdmissionView::relayed(
                                                room.signal_epoch,
                                                room.members[join.client_id].token,
                                            ),
                                        ),
                                    },
                                ),
                                Ok(()),
                            )
                        }
                    } else {
                        (
                            self.with_room(
                                room_id,
                                room.without_member(pending.client_id),
                            ).with_action(
                                ActionView::AdmissionCompleted {
                                    authority_request_id: pending.authority_request_id,
                                    result: Err(failure_reason(result)),
                                },
                            ).arm_downgrade(room_id, now),
                            Ok(()),
                        )
                    }
                },
            }
        }
    }

    pub open spec fn with_one_client_more(self, instance_id: Text) -> Table {
        let worker = self.workers[instance_id];
        self.with_worker(
            instance_id,
            Worker { assigned_clients: capped_sum(worker.assigned_clients, 1), ..worker },
        )
    }

    /// The client that was to leave its worker has left, or stays.
    pub open spec fn sfu_leave_result(
        self,
        from_expected: bool,
        room_id: u64,
        client_id: u64,
        lifecycle_id: u64,
        assignment_epoch: u64,
        instance_id: Text,
        result: Result<CommandOk, ErrorView>,
        now: Instant,
    ) -> (Table, Result<(), Text>) {
        let valid = result matches Ok(CommandOk::MemberLeft(left)) && left.room_id == room_id
            && left.client_id == client_id && left.lifecycle_id == lifecycle_id
            && left.assignment_epoch == assignment_epoch;
        self.sfu_leave_outcome(
            room_id,
            client_id,
            instance_id,
            if from_expected && valid {
                None
            } else {
                Some(failure_reason(result))
            },
            now,
        )
    }

    /// The client has left its worker, or stays there for the given reason.
    pub open spec fn sfu_leave_outcome(
        self,
        room_id: u64,
        client_id: u64,
        instance_id: Text,
        failure: Option<Text>,
        now: Instant,
    ) -> (Table, Result<(), Text>) {
        if !self.rooms.contains_key(room_id) {
            (self, Err("ROOM_NOT_FOUND"@))
        } else {
            match self.rooms[room_id].pending_leave {
                None => (self, Err("ROOM_TRANSITION"@)),
                Some(pending) => {
                    let room = Room { pending_leave: None, ..self.rooms[room_id] };
                    match failure {
                        None => (
                            self.member_left(
                                room_id,
                                room,
                                client_id,
                                instance_id,
                                now,
                                ActionView::removal(pending, room_id, client_id, Ok(())),
                            ),
                            Ok(()),
                        ),
                        Some(reason) => (
                            self.with_room(room_id, room).with_actions(
                                ActionView::removal(pending, room_id, client_id, Err(reason)),
                            ).arm_downgrade(room_id, now),
                            Ok(()),
                        ),
                    }
                },
            }
        }
    }

    pub open spec fn with_actions(self, actions: Seq<ActionView>) -> Table {
        Table { actions: self.actions + actions, ..self }
    }

    /// The worker has one client less. The room, in which nothing is under way
    /// any more, is closed if nobody is left; otherwise it may be on its way to
    /// a downgrade, and the one member that is left alone is told.
    pub open spec fn member_left(
        self,
        room_id: u64,
        room: Room,
        client_id: u64,
        instance_id: Text,
        now: Instant,
        answer: Seq<ActionView>,
    ) -> Table {
        let worker = self.workers[instance_id];
        let left = room.without_member(client_id);
        let empty = left.members.dom().len() == 0;
        let t = self.with_worker(
            instance_id,
            Worker {
                assigned_rooms: if empty {
                    worker.assigned_rooms.remove(room_id)
                } else {
                    worker.assigned_rooms
                },
                assigned_clients: capped_difference(worker.assigned_clients, 1),
                ..worker
            },
        ).with_actions(answer);
        if empty {
            t.without_room(room_id)
        } else if room.has(client_id) {
            t.with_room(room_id, left.promoted()).with_actions(
                ActionView::promoted(left.promotion(room_id)),
            ).arm_downgrade(room_id, now)
        } else {
            t.with_room(room_id, left).arm_downgrade(room_id, now)
        }
    }

    // Time

    pub open spec fn handle_timeout(self, now: Instant) -> (Table, Seq<Promotion>) {
        let t = self.expire_workers(self.expired_workers(now));
        t.sweep_rooms(now, ord_map::in_order::<u64>(t.rooms.dom()))
    }

    /// The workers whose grace is over, in ascending order.
    pub open spec fn expired_workers(self, now: Instant) -> Seq<Text> {
        ord_map::in_order::<String>(self.workers.dom()).filter(
            |i: Text| reached(self.workers[i].disconnect_deadline, now),
        )
    }

    pub open spec fn expire_workers(self, instances: Seq<Text>) -> Table
        decreases instances.len(),
    {
        if instances.len() == 0 {
            self
        } else {
            self.expire_workers(instances.drop_last()).expire_worker(instances.last())
        }
    }

    /// The rooms of the worker have failed, or are back in P2P where they were
    /// still upgrading; nothing is waited for or counted there any more.
    pub open spec fn expire_worker(self, instance_id: Text) -> Table {
        let rooms = if self.workers.contains_key(instance_id) {
            ord_map::in_order::<u64>(self.workers[instance_id].assigned_rooms)
        } else {
            Seq::empty()
        };
        let t = self.lose_rooms(rooms);
        let u = t.without_commands(t.commands_of(instance_id));
        if u.workers.contains_key(instance_id) {
            u.with_worker(
                instance_id,
                Worker {
                    disconnect_deadline: None,
                    assigned_rooms: Set::empty(),
                    assigned_clients: 0,
                    ..u.workers[instance_id]
                },
            )
        } else {
            u
        }
    }

    pub open spec fn lose_rooms(self, rooms: Seq<u64>) -> Table
        decreases rooms.len(),
    {
        if rooms.len() == 0 {
            self
        } else {
            self.lose_rooms(rooms.drop_last()).lose_room(rooms.last())
        }
    }

    /// The worker of the room is gone.
    pub open spec fn lose_room(self, room_id: u64) -> Table {
        if !self.rooms.contains_key(room_id) {
            self
        } else {
            let room = self.rooms[room_id];
            if room.mode == RoomMode::Upgrading {
                self.abort_upgrade(room_id, "WORKER_UNAVAILABLE"@).0
            } else {
                let stayed = match room.pending_join {
                    Some(join) => room.without_member(join.client_id),
                    None => room,
                };
                let refused = match room.pending_join {
                    Some(join) => seq![
                        ActionView::AdmissionCompleted {
                            authority_request_id: join.authority_request_id,
                            result: Err("WORKER_UNAVAILABLE"@),
                        },
                    ],
                    None => Seq::empty(),
                };
                let unanswered = match room.pending_leave {
                    Some(leave) => ActionView::removal(
                        leave,
                        room_id,
                        leave.client_id,
                        Err("WORKER_UNAVAILABLE"@),
                    ),
                    None => Seq::empty(),
                };
                self.with_room(
                    room_id,
                    Room {
                        mode: RoomMode::Failed,
                        pending_join: None,
                        pending_leave: None,
                        ..stayed
                    },
                ).with_actions(refused).with_actions(unanswered).with_action(
                    ActionView::RoomFailed {
                        room_id,
                        clients: stayed.clients(),
                        reason: "WORKER_UNAVAILABLE"@,
                    },
                )
            }
        }
    }

    pub open spec fn sweep_rooms(self, now: Instant, rooms: Seq<u64>) -> (Table, Seq<Promotion>)
        decreases rooms.len(),
    {
        if rooms.len() == 0 {
            (self, Seq::empty())
        } else {
            let (t, promotions) = self.sweep_rooms(now, rooms.drop_last());
            let (u, promotion) = t.sweep_room(now, rooms.last());
            (
                u,
                match promotion {
                    Some(p) => promotions.push(p),
                    None => promotions,
                },
            )
        }
    }

    /// What time has brought to a room: its downgrade, the leave of a member
    /// from the worker, or the removal of members that did not come back.
    pub open spec fn sweep_room(self, now: Instant, room_id: u64) -> (Table, Option<Promotion>) {
        if !self.rooms.contains_key(room_id) {
            (self, None)
        } else {
            let room = self.rooms[room_id];
            let expired = room.expired_clients(now);
            if reached(room.downgrade_deadline, now) {
                if room.downgrade_eligible() {
                    (self.commit_downgrade(room_id).0, None)
                } else {
                    (self.with_room(room_id, Room { downgrade_deadline: None, ..room }), None)
                }
            } else if room.mode == RoomMode::Sfu && room.pending_leave is None && expired.len() > 0 {
                match self.issue_sfu_leave(room_id, expired[0], LeaveReason::Disconnected) {
                    Some(t) => (t, None),
                    None => (self.with_grace(now, room_id, expired[0]), None),
                }
            } else if room.mode != RoomMode::P2p {
                (self, None)
            } else {
                let left = room.without_expired(now);
                if expired.len() > 0 {
                    (
                        self.with_room_unless_empty(room_id, left.promoted()),
                        left.promotion(room_id),
                    )
                } else {
                    (self.with_room_unless_empty(room_id, left), None)
                }
            }
        }
    }

    // Counts

    pub open spec fn occupancy(self, room_id: u64) -> (nat, RoomMode) {
        if self.rooms.contains_key(room_id) {
            (self.rooms[room_id].members.dom().len(), self.rooms[room_id].mode)
        } else {
            (0, RoomMode::P2p)
        }
    }

    /// How many members all rooms have.
    pub open spec fn member_count(self) -> nat {
        seqs::sum(
            ord_map::in_order::<u64>(self.rooms.dom()).map_values(member_counts(self.rooms)),
        )
    }

    /// How many members have a browser connected.
    pub open spec fn registered_count(self) -> nat {
        seqs::sum(
            ord_map::in_order::<u64>(self.rooms.dom()).map_values(registered_counts(self.rooms)),
        )
    }

    pub open spec fn connected_workers(self) -> Set<Text> {
        self.workers.dom().filter(is_connected(self.workers))
    }

    pub open spec fn ready_workers(self) -> Set<Text> {
        self.workers.dom().filter(is_ready(self.workers))
    }

    // Deadlines

    /// Whether something is due at `t`.
    pub open spec fn is_deadline(self, t: Instant) -> bool {
        ||| exists|r: u64, c: u64| self.is_reconnect_deadline(r, c, t)
        ||| exists|i: Text| self.is_disconnect_deadline(i, t)
        ||| exists|r: u64| self.is_downgrade_deadline(r, t)
    }

    /// Whether something is due in a room at `t`.
    pub open spec fn is_room_deadline(self, room_id: u64, t: Instant) -> bool {
        ||| self.is_downgrade_deadline(room_id, t)
        ||| exists|c: u64| self.is_reconnect_deadline(room_id, c, t)
    }

    pub open spec fn is_reconnect_deadline(self, room_id: u64, client_id: u64, t: Instant) -> bool {
        self.rooms.contains_key(room_id) && self.rooms[room_id].is_member_deadline(client_id, t)
    }

    pub open spec fn is_disconnect_deadline(self, instance_id: Text, t: Instant) -> bool {
        self.workers.contains_key(instance_id) && self.workers[instance_id].disconnect_deadline
            == Some(t)
    }

    pub open spec fn is_downgrade_deadline(self, room_id: u64, t: Instant) -> bool {
        self.rooms.contains_key(room_id) && self.rooms[room_id].downgrade_deadline == Some(t)
    }
}

} // verus!
