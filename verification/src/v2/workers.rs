//! What SFU workers do: register, report, answer and go away.

use super::{invariants, model};
use super::{
    Action, ActionView, Admission, ClientId, Delivery, PendingCommand, PendingLeave,
    RoomId, RoomMode, RoomTable, Upgrade, Worker, EVENT_DEDUP_CAPACITY, HEALTH_INTERVAL_MS,
};
use crate::ord_map;
use crate::ord_map::OrdSet;
use crate::seqs;
use crate::sfu;
use crate::time::Instant;
use std::collections::VecDeque;
use vstd::prelude::*;

verus! {

broadcast use {crate::seqs::group_views, crate::ord_map::group_maps};

fn command_room_id(command: &sfu::Command) -> (r: RoomId)
    ensures
        r == model::command_room(command@),
{
    match &command.command {
        sfu::CommandKind::SyncRoom(command) => command.room_id,
        sfu::CommandKind::Join(command) => command.room_id,
        sfu::CommandKind::Leave(command) => command.room_id,
        sfu::CommandKind::Signal(command) => command.room_id,
    }
}

/// Why a worker did not do what it was asked.
fn failure_reason(result: Result<sfu::CommandOk, sfu::Error>) -> (r: String)
    ensures
        r@ == model::failure_reason(
            (match result {
                Ok(ok) => Ok(ok),
                Err(error) => Err(error@),
            }),
        ),
{
    match result {
        Ok(_) => "INVALID_COMMAND_RESULT".to_string(),
        Err(error) => error.reason,
    }
}

/// Whether a worker says that exactly this member has joined.
fn is_joined(result: &Result<sfu::CommandOk, sfu::Error>, join: sfu::JoinMember) -> (r: bool)
    ensures
        r == ((match *result {
            Ok(ok) => Ok::<sfu::CommandOk, sfu::ErrorView>(ok),
            Err(error) => Err(error@),
        }) == Ok::<sfu::CommandOk, sfu::ErrorView>(sfu::CommandOk::MemberJoined(join))),
{
    match result {
        Ok(sfu::CommandOk::MemberJoined(joined)) => *joined == join,
        _ => false,
    }
}

impl RoomTable {
    pub fn handle_sfu_input(&mut self, input: sfu::Input) -> (r: Result<(), String>)
        ensures
            (final(self)@, seqs::result_view(r)) == old(self)@.handle_sfu_input(input@),
            old(self)@.inv() ==> final(self)@.inv(),
    {
        proof {
            if self@.inv() {
                invariants::law_sfu_input_keeps_inv(self@, input@);
            }
        }
        match input {
            sfu::Input::Register { connection_id, instance_id, request_id, capacity } => {
                self.register_worker(connection_id, instance_id, request_id, capacity);
                Ok(())
            },
            sfu::Input::CommandResult { connection_id, instance_id, result, now } => {
                self.handle_command_result(connection_id, &instance_id, result, now)
            },
            sfu::Input::Event { connection_id, instance_id, event } => {
                self.handle_worker_event(connection_id, &instance_id, event)
            },
            sfu::Input::Disconnected { connection_id, instance_id, now } => {
                if let Some(worker) = self.workers.get_mut(&instance_id) {
                    if worker.connection_id == Some(connection_id) {
                        worker.connection_id = None;
                        worker.health = None;
                        worker.disconnect_deadline = Some(now.after(self.reconnect_grace));
                    }
                }
                Ok(())
            },
        }
    }

    /// The numbers of the pending synchronizations with a worker.
    fn sync_ids(&self, instance_id: &String) -> (r: Vec<u64>)
        ensures
            forall|id: u64| #[trigger] r@.contains(id) <==> self@.is_sync_with(id, instance_id@),
    {
        let keys = self.pending_commands.keys();
        let ghost p = |id: u64| self@.is_sync_with(id, instance_id@);
        proof {
            ord_map::lemma_in_order::<u64>(self@.pending_commands.dom());
            seqs::lemma_filter_ends(keys@, p);
            seqs::lemma_filter_contains(keys@, p);
        }
        let mut r: Vec<u64> = Vec::new();
        let mut i: usize = 0;
        while i < keys.len()
            invariant
                i <= keys@.len(),
                forall|c: u64| #[trigger]
                    self@.pending_commands.dom().contains(c) <==> keys@.contains(c),
                p == (|id: u64| self@.is_sync_with(id, instance_id@)),
                r@ == keys@.take(i as int).filter(p),
            decreases keys@.len() - i,
        {
            proof {
                seqs::lemma_filter_take(keys@, p, i as int);
                assert(keys@.contains(keys@[i as int]));
                assert(self@.pending_commands.dom().contains(keys@[i as int]));
            }
            if let Some(pending) = self.pending_commands.get(&keys[i]) {
                if let PendingCommand::SyncRoom { instance_id: pending_instance, .. } = pending {
                    if *pending_instance == *instance_id {
                        r.push(keys[i]);
                    }
                }
            }
            i = i + 1;
        }
        proof {
            assert forall|id: u64| #[trigger] r@.contains(id) <==> self@.is_sync_with(
                id,
                instance_id@,
            ) by {
                assert(r@.contains(id) <==> keys@.contains(id) && p(id));
                assert(self@.pending_commands.dom().contains(id) <==> keys@.contains(id));
            }
        }
        r
    }

    /// The numbers of the commands that were sent to a worker.
    fn command_ids(&self, instance_id: &String) -> (r: Vec<u64>)
        ensures
            forall|id: u64| #[trigger]
                r@.contains(id) <==> self@.command_workers.contains_key(id)
                    && self@.command_workers[id] == instance_id@,
    {
        let keys = self.command_workers.keys();
        let ghost p = |id: u64| self@.command_workers[id] == instance_id@;
        proof {
            ord_map::lemma_in_order::<u64>(self@.command_workers.dom());
            seqs::lemma_filter_ends(keys@, p);
            seqs::lemma_filter_contains(keys@, p);
        }
        let mut r: Vec<u64> = Vec::new();
        let mut i: usize = 0;
        while i < keys.len()
            invariant
                i <= keys@.len(),
                forall|c: u64| #[trigger]
                    self@.command_workers.dom().contains(c) <==> keys@.contains(c),
                p == (|id: u64| self@.command_workers[id] == instance_id@),
                r@ == keys@.take(i as int).filter(p),
            decreases keys@.len() - i,
        {
            proof {
                seqs::lemma_filter_take(keys@, p, i as int);
                assert(keys@.contains(keys@[i as int]));
                assert(self@.command_workers.dom().contains(keys@[i as int]));
            }
            if let Some(worker) = self.command_workers.get(&keys[i]) {
                if *worker == *instance_id {
                    r.push(keys[i]);
                }
            }
            i = i + 1;
        }
        proof {
            assert forall|id: u64| #[trigger] r@.contains(id) <==> self@.command_workers.contains_key(
                id,
            ) && self@.command_workers[id] == instance_id@ by {
                assert(r@.contains(id) <==> keys@.contains(id) && p(id));
                assert(self@.command_workers.dom().contains(id) <==> keys@.contains(id));
            }
        }
        r
    }

    /// Waits for these commands no more.
    fn forget_commands(&mut self, ids: &Vec<u64>)
        ensures
            final(self)@ == old(self)@.without_commands(ids@.to_set()),
    {
        let ghost start = self@;
        let mut i: usize = 0;
        assert(self@ =~= start.without_commands(ids@.take(0).to_set()));
        while i < ids.len()
            invariant
                i <= ids@.len(),
                self@ == start.without_commands(ids@.take(i as int).to_set()),
            decreases ids@.len() - i,
        {
            let ghost taken = ids@.take(i as int);
            let ghost next = ids@.take(i + 1);
            proof {
                assert(next =~= taken.push(ids@[i as int]));
                assert(next.to_set() =~= taken.to_set().insert(ids@[i as int])) by {
                    assert forall|c: u64| next.contains(c) <==> taken.contains(c) || c
                        == ids@[i as int] by {
                        if taken.contains(c) {
                            let m = choose|m: int| 0 <= m < taken.len() && taken[m] == c;
                            assert(next[m] == c);
                        }
                        assert(next[i as int] == ids@[i as int]);
                        if next.contains(c) {
                            let m = choose|m: int| 0 <= m < next.len() && next[m] == c;
                            assert(m < i ==> taken[m] == c);
                        }
                    }
                }
            }
            self.pending_commands.remove(&ids[i]);
            self.unacknowledged_commands.remove(&ids[i]);
            self.command_workers.remove(&ids[i]);
            i = i + 1;
            assert(self@ =~= start.without_commands(next.to_set()));
        }
        assert(ids@.take(i as int) =~= ids@);
    }

    /// The unanswered commands for a room in the order of their numbers.
    fn replay(&self, instance_id: &String, room_id: RoomId) -> (r: Vec<sfu::Command>)
        ensures
            seqs::views(r@) == self@.replay(instance_id@, room_id),
    {
        let keys = self.command_workers.keys();
        let ghost p = |id: u64| self@.to_replay(id, instance_id@, room_id);
        let ghost g = |id: u64| self@.unacknowledged_commands[id];
        proof {
            ord_map::lemma_in_order::<u64>(self@.command_workers.dom());
            seqs::lemma_filter_ends(keys@, p);
            assert(keys@.take(0).filter(p).map_values(g) =~= Seq::empty());
        }
        let mut r: Vec<sfu::Command> = Vec::new();
        let mut i: usize = 0;
        while i < keys.len()
            invariant
                i <= keys@.len(),
                forall|c: u64| #[trigger]
                    self@.command_workers.dom().contains(c) <==> keys@.contains(c),
                p == (|id: u64| self@.to_replay(id, instance_id@, room_id)),
                g == (|id: u64| self@.unacknowledged_commands[id]),
                seqs::views(r@) == keys@.take(i as int).filter(p).map_values(g),
            decreases keys@.len() - i,
        {
            let ghost id = keys@[i as int];
            proof {
                seqs::lemma_filter_take(keys@, p, i as int);
                assert(keys@.contains(id));
                assert(self@.command_workers.dom().contains(id));
                let kept = keys@.take(i as int).filter(p);
                assert(kept.push(id).map_values(g) =~= kept.map_values(g).push(g(id)));
            }
            let of_worker = match self.command_workers.get(&keys[i]) {
                Some(worker) => *worker == *instance_id,
                None => false,
            };
            let is_sync = match self.pending_commands.get(&keys[i]) {
                Some(PendingCommand::SyncRoom { .. }) => true,
                _ => false,
            };
            if of_worker && !is_sync {
                if let Some(command) = self.unacknowledged_commands.get(&keys[i]) {
                    if command_room_id(command) == room_id {
                        r.push(command.clone());
                    }
                }
            }
            i = i + 1;
        }
        r
    }

    fn sync_room(
        &mut self,
        instance_id: &String,
        connection_id: sfu::ConnectionId,
        room_id: RoomId,
    )
        ensures
            final(self)@ == old(self)@.sync_room(instance_id@, connection_id, room_id),
    {
        let (assignment_epoch, members) = match self.rooms.get(&room_id) {
            None => {
                return;
            },
            Some(room) => (room.assignment_epoch, room.projections()),
        };
        let replay = self.replay(instance_id, room_id);
        self.issue_command(
            instance_id.clone(),
            connection_id,
            sfu::CommandKind::SyncRoom(sfu::SyncRoom { room_id, assignment_epoch, members }),
            PendingCommand::SyncRoom {
                instance_id: instance_id.clone(),
                room_id,
                assignment_epoch,
                replay,
            },
        );
    }

    /// Takes the worker in under its new connection, and closes the connection
    /// that it replaces.
    fn connect_worker(
        &mut self,
        connection_id: sfu::ConnectionId,
        instance_id: &String,
        request_id: u64,
        capacity: sfu::Capacity,
    )
        ensures
            final(self)@ == old(self)@.worker_connected(
                connection_id,
                instance_id@,
                request_id,
                capacity,
            ),
    {
        let (resumed, old_connection) = match self.workers.get_mut(instance_id) {
            Some(worker) => {
                let old_connection = worker.connection_id;
                worker.connection_id = Some(connection_id);
                worker.capacity = capacity;
                worker.health = None;
                worker.disconnect_deadline = None;
                (true, old_connection)
            },
            None => (false, None),
        };
        if !resumed {
            self.workers.insert(
                instance_id.clone(),
                Worker {
                    connection_id: Some(connection_id),
                    capacity,
                    health: None,
                    assigned_rooms: OrdSet::new(),
                    assigned_clients: 0,
                    seen_events: OrdSet::new(),
                    seen_event_order: VecDeque::new(),
                    disconnect_deadline: None,
                },
            );
        }
        if let Some(old) = old_connection {
            if old != connection_id {
                self.actions.push_back(Action::Sfu(sfu::Output::Close { connection_id: old }));
            }
        }
        self.actions.push_back(
            Action::Sfu(
                sfu::Output::Registered {
                    connection_id,
                    request_id,
                    health_interval_ms: HEALTH_INTERVAL_MS,
                    resumed,
                },
            ),
        );
    }

    fn register_worker(
        &mut self,
        connection_id: sfu::ConnectionId,
        instance_id: String,
        request_id: u64,
        capacity: sfu::Capacity,
    )
        ensures
            final(self)@ == old(self)@.register_worker(
                connection_id,
                instance_id@,
                request_id,
                capacity,
            ),
    {
        if instance_id.as_str().is_empty() || request_id == 0 || capacity.max_rooms == 0
            || capacity.max_clients == 0 {
            self.actions.push_back(
                Action::Sfu(
                    sfu::Output::RegistrationError {
                        connection_id,
                        request_id,
                        error: sfu::Error {
                            reason: "INVALID_REQUEST".to_string(),
                            retryable: false,
                        },
                    },
                ),
            );
            return;
        }
        self.connect_worker(connection_id, &instance_id, request_id, capacity);
        let ghost connected = self@;
        let superseded_syncs = self.sync_ids(&instance_id);
        self.forget_commands(&superseded_syncs);
        proof {
            assert(superseded_syncs@.to_set() =~= connected.syncs_with(instance_id@)) by {
                assert forall|id: u64| superseded_syncs@.to_set().contains(id)
                    <==> connected.is_sync_with(id, instance_id@) by {
                    assert(superseded_syncs@.contains(id) <==> connected.is_sync_with(
                        id,
                        instance_id@,
                    ));
                }
            }
            assert(self@ == connected.without_syncs(instance_id@));
        }
        let assigned_rooms = match self.workers.get(&instance_id) {
            Some(worker) => worker.assigned_rooms.elements(),
            None => Vec::new(),
        };
        let ghost start = self@;
        let mut i: usize = 0;
        while i < assigned_rooms.len()
            invariant
                i <= assigned_rooms@.len(),
                self@ == start.sync_rooms(
                    instance_id@,
                    connection_id,
                    assigned_rooms@.take(i as int),
                ),
            decreases assigned_rooms@.len() - i,
        {
            assert(assigned_rooms@.take(i + 1).drop_last() =~= assigned_rooms@.take(i as int));
            self.sync_room(&instance_id, connection_id, assigned_rooms[i]);
            i = i + 1;
        }
        assert(assigned_rooms@.take(i as int) =~= assigned_rooms@);
    }

    fn fail_room(&mut self, room_id: RoomId, reason: String)
        ensures
            final(self)@ == old(self)@.fail_room(room_id, reason@),
    {
        if let Some(room) = self.rooms.get_mut(&room_id) {
            room.mode = RoomMode::Failed;
            let clients = room.members.keys();
            self.actions.push_back(Action::RoomFailed { room_id, clients, reason });
        }
    }

    fn handle_worker_event(
        &mut self,
        connection_id: sfu::ConnectionId,
        instance_id: &String,
        event: sfu::Event,
    ) -> (r: Result<(), String>)
        ensures
            (final(self)@, seqs::result_view(r)) == old(self)@.handle_worker_event(
                connection_id,
                instance_id@,
                event@,
            ),
    {
        let worker = match self.workers.get_mut(instance_id) {
            None => {
                return Err("UNKNOWN_SFU".to_string());
            },
            Some(worker) => worker,
        };
        let request_id: u64 = event.request_id;
        if worker.connection_id != Some(connection_id) || request_id == 0 {
            return Err("STALE_SFU_SESSION".to_string());
        }
        if worker.seen_events.contains(&request_id) {
            self.actions.push_back(Action::Sfu(sfu::Output::EventAck { connection_id, request_id }));
            return Ok(());
        }
        worker.see_event(request_id);
        match event.event {
            sfu::EventKind::Health(health) => {
                worker.capacity = health.capacity;
                worker.health = Some(health);
            },
            sfu::EventKind::Signal(signal) => {
                if let Some(reason) = self.signal_refusal(instance_id, &signal) {
                    return Err(reason);
                }
                self.actions.push_back(
                    Action::Deliver(
                        Delivery {
                            room_id: signal.room_id,
                            client_id: signal.client_id,
                            message: signal.message_json,
                        },
                    ),
                );
            },
            sfu::EventKind::Failure { error, room_id, .. } => {
                if let Some(room_id) = room_id {
                    self.fail_room(room_id, error.reason);
                }
            },
        }
        self.actions.push_back(Action::Sfu(sfu::Output::EventAck { connection_id, request_id }));
        Ok(())
    }

    /// Why a signal of a worker is not for a current member, if it is not.
    fn signal_refusal(&self, instance_id: &String, signal: &sfu::Signal) -> (r: Option<String>)
        ensures
            seqs::opt_view(r) == self@.signal_refusal(instance_id@, signal@),
    {
        match self.rooms.get(&signal.room_id) {
            None => Some("ROOM_NOT_FOUND".to_string()),
            Some(room) => match room.members.get(&signal.client_id) {
                None => Some("CLIENT_NOT_FOUND".to_string()),
                Some(member) => {
                    let assigned_here = match &room.assigned_instance {
                        Some(assigned) => *assigned == *instance_id,
                        None => false,
                    };
                    if room.mode != RoomMode::Sfu || !assigned_here || room.assignment_epoch
                        != signal.assignment_epoch || member.lifecycle_id != signal.lifecycle_id {
                        Some("STALE_ASSIGNMENT".to_string())
                    } else {
                        None
                    }
                },
            },
        }
    }

    fn handle_command_result(
        &mut self,
        connection_id: sfu::ConnectionId,
        instance_id: &String,
        result: sfu::CommandResult,
        now: Instant,
    ) -> (r: Result<(), String>)
        ensures
            (final(self)@, seqs::result_view(r)) == old(self)@.handle_command_result(
                connection_id,
                instance_id@,
                result@,
                now,
            ),
    {
        match self.workers.get(instance_id) {
            None => {
                return Err("UNKNOWN_SFU".to_string());
            },
            Some(worker) => {
                if worker.connection_id != Some(connection_id) {
                    return Err("STALE_SFU_SESSION".to_string());
                }
            },
        }
        let request_id: u64 = result.request_id;
        let pending = match self.pending_commands.remove(&request_id) {
            None => {
                assert(self@ =~= old(self)@);
                return Ok(());
            },
            Some(pending) => pending,
        };
        self.unacknowledged_commands.remove(&request_id);
        self.command_workers.remove(&request_id);
        match pending {
            PendingCommand::SyncRoom { instance_id: expected, room_id, assignment_epoch, replay } => {
                self.sync_result(
                    expected == *instance_id,
                    room_id,
                    assignment_epoch,
                    replay,
                    connection_id,
                    result,
                );
                Ok(())
            },
            PendingCommand::UpgradeJoin { instance_id: expected, join } => {
                self.upgrade_join_result(expected == *instance_id, join, instance_id, result, now)
            },
            PendingCommand::SfuJoin { instance_id: expected, join } => self.sfu_join_result(
                expected == *instance_id,
                join,
                instance_id,
                result,
                now,
            ),
            PendingCommand::SfuLeave {
                instance_id: expected,
                room_id,
                client_id,
                lifecycle_id,
                assignment_epoch,
            } => {
                let valid = match &result.result {
                    Ok(sfu::CommandOk::MemberLeft(left)) => left.room_id == room_id
                        && left.client_id == client_id && left.lifecycle_id == lifecycle_id
                        && left.assignment_epoch == assignment_epoch,
                    _ => false,
                };
                let outcome = if expected == *instance_id && valid {
                    None
                } else {
                    Some(failure_reason(result.result))
                };
                self.sfu_leave_result(room_id, client_id, instance_id, outcome, now)
            },
            PendingCommand::Signal => Ok(()),
            PendingCommand::Cleanup => Ok(()),
        }
    }

    fn sync_result(
        &mut self,
        from_expected: bool,
        room_id: RoomId,
        assignment_epoch: u64,
        replay: Vec<sfu::Command>,
        connection_id: sfu::ConnectionId,
        result: sfu::CommandResult,
    )
        ensures
            final(self)@ == old(self)@.sync_result(
                from_expected,
                room_id,
                assignment_epoch,
                seqs::views(replay@),
                connection_id,
                result@.result,
            ),
    {
        let valid = match &result.result {
            Ok(sfu::CommandOk::RoomSynced(synced)) => synced.room_id == room_id
                && synced.assignment_epoch == assignment_epoch,
            _ => false,
        };
        if !from_expected || !valid {
            self.fail_room(room_id, "WORKER_UNAVAILABLE".to_string());
            return;
        }
        let ghost start = self@;
        let ghost commands = seqs::views(replay@);
        let ghost g = |command: sfu::CommandView|
            ActionView::Sfu(sfu::OutputView::Command { connection_id, command });
        let mut i: usize = 0;
        assert(start.actions + commands.take(0).map_values(g) =~= start.actions);
        while i < replay.len()
            invariant
                i <= replay@.len(),
                commands == seqs::views(replay@),
                g == (|command: sfu::CommandView|
                    ActionView::Sfu(sfu::OutputView::Command { connection_id, command })),
                self@ == (model::Table {
                    actions: start.actions + commands.take(i as int).map_values(g),
                    ..start
                }),
            decreases replay@.len() - i,
        {
            let command = replay[i].clone();
            self.actions.push_back(Action::Sfu(sfu::Output::Command { connection_id, command }));
            assert(commands.take(i + 1).map_values(g) =~= commands.take(i as int).map_values(
                g,
            ).push(g(commands[i as int])));
            i = i + 1;
            assert(self@.actions =~= start.actions + commands.take(i as int).map_values(g));
        }
        assert(commands.take(i as int) =~= commands);
    }

    /// Whether the upgrade of a room waits for this join at this worker. The result
    /// of an earlier upgrade, which the room has given up, is none of those.
    fn awaits_join(&self, instance_id: &String, join: sfu::JoinMember) -> (r: bool)
        ensures
            r == self@.awaits_join(instance_id@, join),
    {
        let room = match self.rooms.get(&join.room_id) {
            None => {
                return false;
            },
            Some(room) => room,
        };
        let assigned = match &room.assigned_instance {
            None => false,
            Some(assigned) => *assigned == *instance_id,
        };
        let listed = match self.workers.get(instance_id) {
            None => false,
            Some(worker) => worker.assigned_rooms.contains(&join.room_id),
        };
        let next = match &room.upgrade {
            None => false,
            Some(upgrade) => {
                proof {
                    use_type_invariant(upgrade);
                }
                upgrade.ordered_clients[upgrade.next_client] == join.client_id
            },
        };
        let current = match self.lifecycle_ids.get(&(join.room_id, join.client_id)) {
            None => false,
            Some(lifecycle_id) => *lifecycle_id == join.lifecycle_id,
        };
        assigned && listed && next && current
    }

    fn upgrade_join_result(
        &mut self,
        from_expected: bool,
        join: sfu::JoinMember,
        instance_id: &String,
        result: sfu::CommandResult,
        now: Instant,
    ) -> (r: Result<(), String>)
        ensures
            (final(self)@, seqs::result_view(r)) == old(self)@.upgrade_join_result(
                from_expected,
                join,
                instance_id@,
                result@.result,
                now,
            ),
    {
        let room_id: RoomId = join.room_id;
        if !from_expected || !is_joined(&result.result, join) {
            return self.abort_upgrade(room_id, failure_reason(result.result));
        }
        let awaited = self.awaits_join(instance_id, join);
        let room = match self.rooms.get_mut(&room_id) {
            None => {
                return Err("ROOM_NOT_FOUND".to_string());
            },
            Some(room) => room,
        };
        if !awaited {
            return Err("ROOM_TRANSITION".to_string());
        }
        let upgrade = match room.upgrade.take() {
            None => {
                return Err("ROOM_TRANSITION".to_string());
            },
            Some(upgrade) => upgrade,
        };
        proof {
            use_type_invariant(&upgrade);
        }
        let total: usize = upgrade.ordered_clients.len();
        if upgrade.next_client + 1 == total {
            room.upgrade = Some(upgrade);
            self.commit_upgrade(room_id, now)
        } else {
            let mut joined_clients = upgrade.joined_clients;
            joined_clients.push(join.client_id);
            room.upgrade = Some(
                Upgrade {
                    authority_request_id: upgrade.authority_request_id,
                    joining_client_id: upgrade.joining_client_id,
                    ordered_clients: upgrade.ordered_clients,
                    joined_clients,
                    next_client: upgrade.next_client + 1,
                },
            );
            self.issue_next_upgrade_join(room_id)
        }
    }

    fn sfu_join_result(
        &mut self,
        from_expected: bool,
        join: sfu::JoinMember,
        instance_id: &String,
        result: sfu::CommandResult,
        now: Instant,
    ) -> (r: Result<(), String>)
        requires
            old(self)@.workers.contains_key(instance_id@),
        ensures
            (final(self)@, seqs::result_view(r)) == old(self)@.sfu_join_result(
                from_expected,
                join,
                instance_id@,
                result@.result,
                now,
            ),
    {
        let room_id: RoomId = join.room_id;
        let room = match self.rooms.get_mut(&room_id) {
            None => {
                return Err("ROOM_NOT_FOUND".to_string());
            },
            Some(room) => room,
        };
        let pending_join = match room.pending_join.take() {
            None => {
                return Err("ROOM_TRANSITION".to_string());
            },
            Some(pending_join) => pending_join,
        };
        if from_expected && is_joined(&result.result, join) {
            if let Some(worker) = self.workers.get_mut(instance_id) {
                worker.assigned_clients = worker.assigned_clients.saturating_add(1);
            }
            let outcome = match room.members.get(&join.client_id) {
                None => Err("CLIENT_NOT_FOUND".to_string()),
                Some(member) => {
                    self.actions.push_back(
                        Action::AdmissionCompleted {
                            authority_request_id: pending_join.authority_request_id,
                            result: Ok(
                                Admission {
                                    mode: RoomMode::Sfu,
                                    signal_epoch: room.signal_epoch,
                                    admission_token: member.token.clone(),
                                    is_initiator: None,
                                },
                            ),
                        },
                    );
                    Ok(())
                },
            };
            self.arm_downgrade(room_id, now);
            outcome
        } else {
            room.members.remove(&pending_join.client_id);
            self.actions.push_back(
                Action::AdmissionCompleted {
                    authority_request_id: pending_join.authority_request_id,
                    result: Err(failure_reason(result.result)),
                },
            );
            // The room is as small as it was before the client asked to join, so
            // the dwell that the join had cancelled starts anew.
            self.arm_downgrade(room_id, now);
            Ok(())
        }
    }

    /// Answers the authority that asked for a leave, if it did.
    fn answer_removal(
        &mut self,
        leave: PendingLeave,
        room_id: RoomId,
        client_id: ClientId,
        result: Result<(), String>,
    )
        ensures
            final(self)@ == old(self)@.with_actions(
                ActionView::removal(leave, room_id, client_id, seqs::result_view(result)),
            ),
    {
        if let Some(authority_request_id) = leave.authority_request_id {
            self.actions.push_back(
                Action::RemovalCompleted { authority_request_id, room_id, client_id, result },
            );
        }
        assert(self@.actions =~= old(self)@.actions + ActionView::removal(
            leave,
            room_id,
            client_id,
            seqs::result_view(result),
        ));
    }

    /// The member has left its worker, or stays there for the given reason.
    fn sfu_leave_result(
        &mut self,
        room_id: RoomId,
        client_id: ClientId,
        instance_id: &String,
        failure: Option<String>,
        now: Instant,
    ) -> (r: Result<(), String>)
        requires
            old(self)@.workers.contains_key(instance_id@),
        ensures
            (final(self)@, seqs::result_view(r)) == old(self)@.sfu_leave_outcome(
                room_id,
                client_id,
                instance_id@,
                seqs::opt_view(failure),
                now,
            ),
    {
        let ghost start = self@;
        let room = match self.rooms.get_mut(&room_id) {
            None => {
                return Err("ROOM_NOT_FOUND".to_string());
            },
            Some(room) => room,
        };
        let pending_leave = match room.pending_leave.take() {
            None => {
                return Err("ROOM_TRANSITION".to_string());
            },
            Some(pending_leave) => pending_leave,
        };
        match failure {
            None => {
                let removed = room.members.remove(&client_id).is_some();
                let empty = room.members.is_empty();
                let promotion = if removed {
                    room.promote_survivor(room_id)
                } else {
                    None
                };
                if let Some(worker) = self.workers.get_mut(instance_id) {
                    worker.assigned_clients = worker.assigned_clients.saturating_sub(1);
                    if empty {
                        worker.assigned_rooms.remove(&room_id);
                    }
                }
                self.answer_removal(pending_leave, room_id, client_id, Ok(()));
                if empty {
                    self.rooms.remove(&room_id);
                } else {
                    if let Some(promotion) = promotion {
                        self.actions.push_back(Action::Promoted(promotion));
                    }
                    // A member left an SFU room; if it has shrunk to at most two
                    // members and is otherwise idle, start the downgrade dwell.
                    self.arm_downgrade(room_id, now);
                }
                Ok(())
            },
            Some(reason) => {
                self.answer_removal(pending_leave, room_id, client_id, Err(reason));
                // The dwell may have ended while the leave was under way.
                self.arm_downgrade(room_id, now);
                Ok(())
            },
        }
    }

    /// Gives up a worker whose grace is over, with all that was assigned to it.
    pub(super) fn expire_worker(&mut self, instance_id: &String)
        ensures
            final(self)@ == old(self)@.expire_worker(instance_id@),
    {
        let assigned_rooms = match self.workers.get(instance_id) {
            Some(worker) => worker.assigned_rooms.elements(),
            None => Vec::new(),
        };
        let ghost start = self@;
        let mut i: usize = 0;
        while i < assigned_rooms.len()
            invariant
                i <= assigned_rooms@.len(),
                self@ == start.lose_rooms(assigned_rooms@.take(i as int)),
            decreases assigned_rooms@.len() - i,
        {
            assert(assigned_rooms@.take(i + 1).drop_last() =~= assigned_rooms@.take(i as int));
            self.lose_room(assigned_rooms[i]);
            i = i + 1;
        }
        assert(assigned_rooms@.take(i as int) =~= assigned_rooms@);
        let ghost lost = self@;
        let request_ids = self.command_ids(instance_id);
        self.forget_commands(&request_ids);
        proof {
            let ids = lost.commands_of(instance_id@);
            assert(request_ids@.to_set() =~= ids) by {
                assert forall|id: u64| request_ids@.to_set().contains(id) <==> ids.contains(id) by {
                    assert(request_ids@.contains(id) <==> ids.contains(id));
                }
            }
        }
        if let Some(worker) = self.workers.get_mut(instance_id) {
            worker.disconnect_deadline = None;
            worker.assigned_rooms.clear();
            worker.assigned_clients = 0;
        }
    }

    /// The worker of the room is gone.
    fn lose_room(&mut self, room_id: RoomId)
        ensures
            final(self)@ == old(self)@.lose_room(room_id),
    {
        let upgrading = match self.rooms.get(&room_id) {
            None => {
                return;
            },
            Some(room) => room.mode == RoomMode::Upgrading,
        };
        if upgrading {
            let _ = self.abort_upgrade(room_id, "WORKER_UNAVAILABLE".to_string());
            return;
        }
        let ghost start = self@;
        if let Some(room) = self.rooms.get_mut(&room_id) {
            let join = room.pending_join.take();
            let leave = room.pending_leave.take();
            if let Some(join) = join {
                room.members.remove(&join.client_id);
            }
            room.mode = RoomMode::Failed;
            let clients = room.members.keys();
            if let Some(join) = join {
                self.actions.push_back(
                    Action::AdmissionCompleted {
                        authority_request_id: join.authority_request_id,
                        result: Err("WORKER_UNAVAILABLE".to_string()),
                    },
                );
            }
            if let Some(leave) = leave {
                self.answer_removal(
                    leave,
                    room_id,
                    leave.client_id,
                    Err("WORKER_UNAVAILABLE".to_string()),
                );
            }
            self.actions.push_back(
                Action::RoomFailed { room_id, clients, reason: "WORKER_UNAVAILABLE".to_string() },
            );
        }
        assert(self@ =~= start.lose_room(room_id));
    }
}

impl Worker {
    /// Remembers the number of an event, and forgets the oldest one where there
    /// are too many.
    fn see_event(&mut self, request_id: u64)
        ensures
            final(self)@ == old(self)@.after_event(request_id),
    {
        self.seen_events.insert(request_id);
        self.seen_event_order.push_back(request_id);
        if self.seen_event_order.len() > EVENT_DEDUP_CAPACITY {
            if let Some(oldest) = self.seen_event_order.pop_front() {
                self.seen_events.remove(&oldest);
            }
        }
        assert(self@ =~= old(self)@.after_event(request_id));
    }
}

} // verus!
