//! Admission, and the ways between direct P2P and a worker.

use super::members::{new_member, reset_members, restart_lifecycles};
use super::{invariants, model};
use super::{
    Action, Admission, AdmissionResult, ClientId, PendingCommand, PendingJoin, Room,
    RoomId, RoomMode, RoomTable, Upgrade, Worker, MAX_P2P_MEMBERS,
};
use crate::key::Key;
use crate::ord_map;
use crate::ord_map::OrdMap;
use crate::seqs;
use crate::sfu;
use crate::time::Instant;
use vstd::prelude::*;

verus! {

broadcast use {crate::seqs::group_views, crate::ord_map::group_maps};

impl Worker {
    fn can_host(&self, additional_clients: usize) -> (r: bool)
        ensures
            r == self@.can_host(additional_clients),
    {
        let ready = match self.health {
            Some(health) => health.state == sfu::State::Ready,
            None => false,
        };
        ready && self.connection_id.is_some() && (self.assigned_rooms.len() as u64)
            < self.capacity.max_rooms && (self.assigned_clients.saturating_add(
            additional_clients,
        ) as u64) <= self.capacity.max_clients
    }

    /// Whether this worker carries less than the other, names aside.
    fn carries_less(&self, other: &Worker) -> (r: bool)
        ensures
            r == (self@.assigned_clients < other@.assigned_clients || self@.assigned_clients
                == other@.assigned_clients && self@.assigned_rooms.len()
                < other@.assigned_rooms.len()),
    {
        self.assigned_clients < other.assigned_clients || self.assigned_clients
            == other.assigned_clients && self.assigned_rooms.len() < other.assigned_rooms.len()
    }
}

/// There is only one best worker.
proof fn lemma_best_worker(t: model::Table, a: Seq<char>, n: usize)
    requires
        t.is_best_worker(a, n),
    ensures
        t.selected_worker(n) == Some(a),
{
    assert(t.can_host(a, n));
    let b = choose|i: Seq<char>| t.is_best_worker(i, n);
    if a != b {
        assert(t.can_host(b, n));
        assert(t.less_loaded(a, b));
        assert(t.less_loaded(b, a));
        if crate::key::text_before(a, b) && crate::key::text_before(b, a) {
            String::before_is_transitive(a, b, a);
            String::before_is_strict(a);
        }
    }
}

impl RoomTable {
    fn select_worker(&self, additional_clients: usize) -> (r: Option<String>)
        ensures
            seqs::opt_view(r) == self@.selected_worker(additional_clients),
            r matches Some(i) ==> self@.can_host(i@, additional_clients),
    {
        let ghost names = ord_map::in_order::<String>(self@.workers.dom());
        proof {
            ord_map::lemma_in_order::<String>(self@.workers.dom());
        }
        let mut best: Option<usize> = None;
        let mut i: usize = 0;
        while i < self.workers.len()
            invariant
                i <= self@.workers.dom().len(),
                names == ord_map::in_order::<String>(self@.workers.dom()),
                ord_map::lists::<String>(names, self@.workers.dom()),
                names.len() == self@.workers.dom().len(),
                match best {
                    None => forall|j: int|
                        0 <= j < i ==> !self@.can_host(#[trigger] names[j], additional_clients),
                    Some(b) => {
                        &&& b < i
                        &&& self@.can_host(names[b as int], additional_clients)
                        &&& forall|j: int|
                            0 <= j < i && j != b && self@.can_host(
                                #[trigger] names[j],
                                additional_clients,
                            ) ==> self@.less_loaded(names[b as int], names[j])
                    },
                },
            decreases self@.workers.dom().len() - i,
        {
            assert(names.contains(names[i as int]));
            assert(self@.workers.dom().contains(names[i as int]));
            let worker = self.workers.value_at(i);
            if worker.can_host(additional_clients) {
                match best {
                    None => {
                        best = Some(i);
                    },
                    Some(b) => {
                        assert(String::before(names[b as int], names[i as int]));
                        if worker.carries_less(self.workers.value_at(b)) {
                            best = Some(i);
                        }
                    },
                }
            }
            i = i + 1;
        }
        proof {
            assert forall|x: Seq<char>| self@.can_host(x, additional_clients) implies exists|j: int|
                0 <= j < names.len() && #[trigger] names[j] == x by {
                assert(self@.workers.dom().contains(x));
                assert(names.contains(x));
            }
        }
        match best {
            None => None,
            Some(b) => {
                proof {
                    lemma_best_worker(self@, names[b as int], additional_clients);
                }
                Some(self.workers.key_at(b).clone())
            },
        }
    }

    pub(super) fn issue_next_upgrade_join(&mut self, room_id: RoomId) -> (r: Result<(), String>)
        ensures
            final(self)@ == old(self)@.issue_next_upgrade_join(room_id).0,
            seqs::result_view(r) == old(self)@.issue_next_upgrade_join(room_id).1,
    {
        let join = match self.rooms.get(&room_id) {
            None => {
                return Err("ROOM_NOT_FOUND".to_string());
            },
            Some(room) => match &room.upgrade {
                None => {
                    return Err("ROOM_TRANSITION".to_string());
                },
                Some(upgrade) => {
                    proof {
                        use_type_invariant(upgrade);
                    }
                    let client_id: ClientId = upgrade.ordered_clients[upgrade.next_client];
                    match room.members.get(&client_id) {
                        None => {
                            return Err("CLIENT_NOT_FOUND".to_string());
                        },
                        Some(member) => sfu::JoinMember {
                            room_id,
                            client_id,
                            lifecycle_id: member.lifecycle_id,
                            assignment_epoch: room.assignment_epoch,
                        },
                    }
                },
            },
        };
        match self.serving(room_id) {
            None => Err("WORKER_UNAVAILABLE".to_string()),
            Some((instance_id, connection_id)) => {
                self.issue_command(
                    instance_id.clone(),
                    connection_id,
                    sfu::CommandKind::Join(join),
                    PendingCommand::UpgradeJoin { instance_id, join },
                );
                Ok(())
            },
        }
    }

    pub(super) fn commit_upgrade(&mut self, room_id: RoomId, now: Instant) -> (r: Result<
        (),
        String,
    >)
        ensures
            final(self)@ == old(self)@.commit_upgrade(room_id, now).0,
            seqs::result_view(r) == old(self)@.commit_upgrade(room_id, now).1,
    {
        let room = match self.rooms.get_mut(&room_id) {
            None => {
                return Err("ROOM_NOT_FOUND".to_string());
            },
            Some(room) => room,
        };
        let upgrade = match room.upgrade.take() {
            None => {
                return Err("ROOM_TRANSITION".to_string());
            },
            Some(upgrade) => upgrade,
        };
        room.mode = RoomMode::Sfu;
        room.signal_epoch = room.signal_epoch.saturating_add(1);
        reset_members(&mut room.members, None);
        let admission = match room.members.get(&upgrade.joining_client_id) {
            None => {
                self.arm_downgrade(room_id, now);
                return Err("CLIENT_NOT_FOUND".to_string());
            },
            Some(joining) => Admission {
                mode: RoomMode::Sfu,
                signal_epoch: room.signal_epoch,
                admission_token: joining.token.clone(),
                is_initiator: None,
            },
        };
        let existing_clients = room.other_clients(upgrade.joining_client_id);
        let signal_epoch: u64 = room.signal_epoch;
        self.arm_downgrade(room_id, now);
        self.actions.push_back(Action::Upgraded { room_id, signal_epoch, existing_clients });
        self.actions.push_back(
            Action::AdmissionCompleted {
                authority_request_id: upgrade.authority_request_id,
                result: Ok(admission),
            },
        );
        Ok(())
    }

    /// Frees the assignment of a room at a worker; gives its connection.
    fn release_worker(&mut self, instance_id: &String, room_id: RoomId, clients: usize) -> (r:
        Option<sfu::ConnectionId>)
        ensures
            r == old(self)@.connection(instance_id@),
            final(self)@ == old(self)@.released(instance_id@, room_id, clients as nat),
    {
        match self.workers.get_mut(instance_id) {
            None => None,
            Some(worker) => {
                worker.assigned_rooms.remove(&room_id);
                worker.assigned_clients = worker.assigned_clients.saturating_sub(clients);
                worker.connection_id
            },
        }
    }

    /// Tells a worker that a member has left because the room closed there.
    fn leave_closed(
        &mut self,
        instance_id: &String,
        connection_id: sfu::ConnectionId,
        room_id: RoomId,
        assignment_epoch: u64,
        member: sfu::MemberProjection,
    )
        ensures
            final(self)@ == old(self)@.leave_closed(
                instance_id@,
                connection_id,
                room_id,
                assignment_epoch,
                member,
            ),
    {
        self.issue_command(
            instance_id.clone(),
            connection_id,
            sfu::CommandKind::Leave(
                sfu::LeaveMember {
                    room_id,
                    client_id: member.client_id,
                    lifecycle_id: member.lifecycle_id,
                    assignment_epoch,
                    reason: sfu::LeaveReason::RoomClosed,
                },
            ),
            PendingCommand::Cleanup,
        );
    }

    /// Tells a worker that these clients have left again, up to the first that
    /// is no longer a member; says whether all were.
    fn leave_joined(
        &mut self,
        instance_id: &String,
        connection_id: sfu::ConnectionId,
        room_id: RoomId,
        joined: &Vec<ClientId>,
    ) -> (r: bool)
        ensures
            (final(self)@, r) == old(self)@.leave_joined(
                instance_id@,
                Some(connection_id),
                room_id,
                joined@,
            ),
    {
        let ghost start = self@;
        let mut i: usize = 0;
        while i < joined.len()
            invariant
                i <= joined@.len(),
                start == old(self)@,
                (self@, true) == start.leave_joined(
                    instance_id@,
                    Some(connection_id),
                    room_id,
                    joined@.take(i as int),
                ),
            decreases joined@.len() - i,
        {
            assert(joined@.take(i + 1).drop_last() =~= joined@.take(i as int));
            let client_id: ClientId = joined[i];
            let found = match self.rooms.get(&room_id) {
                None => None,
                Some(room) => match room.members.get(&client_id) {
                    None => None,
                    Some(member) => Some((room.assignment_epoch, member.lifecycle_id)),
                },
            };
            match found {
                None => {
                    proof {
                        start.lemma_leave_joined_stops(
                            instance_id@,
                            Some(connection_id),
                            room_id,
                            joined@,
                            i + 1,
                        );
                    }
                    return false;
                },
                Some((assignment_epoch, lifecycle_id)) => {
                    self.leave_closed(
                        instance_id,
                        connection_id,
                        room_id,
                        assignment_epoch,
                        sfu::MemberProjection { client_id, lifecycle_id },
                    );
                },
            }
            i = i + 1;
        }
        assert(joined@.take(i as int) =~= joined@);
        true
    }

    pub(super) fn abort_upgrade(&mut self, room_id: RoomId, reason: String) -> (r: Result<
        (),
        String,
    >)
        ensures
            final(self)@ == old(self)@.abort_upgrade(room_id, reason@).0,
            seqs::result_view(r) == old(self)@.abort_upgrade(room_id, reason@).1,
    {
        let room = match self.rooms.get_mut(&room_id) {
            None => {
                return Err("ROOM_NOT_FOUND".to_string());
            },
            Some(room) => room,
        };
        let upgrade = match room.upgrade.take() {
            None => {
                return Err("ROOM_TRANSITION".to_string());
            },
            Some(upgrade) => upgrade,
        };
        room.members.remove(&upgrade.joining_client_id);
        room.mode = RoomMode::P2p;
        let instance_id = match room.assigned_instance.take() {
            None => {
                return Err("WORKER_UNAVAILABLE".to_string());
            },
            Some(instance_id) => instance_id,
        };
        let connection = self.release_worker(&instance_id, room_id, 3);
        if let Some(connection_id) = connection {
            if !self.leave_joined(&instance_id, connection_id, room_id, &upgrade.joined_clients) {
                return Err("CLIENT_NOT_FOUND".to_string());
            }
        }
        self.actions.push_back(
            Action::AdmissionCompleted {
                authority_request_id: upgrade.authority_request_id,
                result: Err(
                    if reason.as_str().is_empty() {
                        "WORKER_UNAVAILABLE".to_string()
                    } else {
                        reason
                    },
                ),
            },
        );
        Ok(())
    }

    /// Arms (or leaves armed) the downgrade dwell for an SFU room that has shrunk
    /// to at most two members; clears it otherwise. Idempotent: an already-armed
    /// deadline is preserved so churn within the dwell does not keep pushing it out.
    pub(super) fn arm_downgrade(&mut self, room_id: RoomId, now: Instant)
        ensures
            final(self)@ == old(self)@.arm_downgrade(room_id, now),
    {
        if let Some(room) = self.rooms.get_mut(&room_id) {
            if room.is_downgrade_eligible() {
                if room.downgrade_deadline.is_none() {
                    room.downgrade_deadline = Some(now.after(self.downgrade_dwell));
                }
            } else {
                room.downgrade_deadline = None;
            }
        }
    }

    /// Tells a worker that all these members have left.
    fn leave_all(
        &mut self,
        instance_id: &String,
        connection_id: sfu::ConnectionId,
        room_id: RoomId,
        assignment_epoch: u64,
        members: &Vec<sfu::MemberProjection>,
    )
        ensures
            final(self)@ == old(self)@.leave_all(
                instance_id@,
                Some(connection_id),
                room_id,
                assignment_epoch,
                members@,
            ),
    {
        let ghost start = self@;
        let mut i: usize = 0;
        while i < members.len()
            invariant
                i <= members@.len(),
                self@ == start.leave_all(
                    instance_id@,
                    Some(connection_id),
                    room_id,
                    assignment_epoch,
                    members@.take(i as int),
                ),
            decreases members@.len() - i,
        {
            assert(members@.take(i + 1).drop_last() =~= members@.take(i as int));
            self.leave_closed(instance_id, connection_id, room_id, assignment_epoch, members[i]);
            i = i + 1;
        }
        assert(members@.take(i as int) =~= members@);
    }

    /// Break-before-make SFU-to-P2P downgrade. Commits P2P and a new signal epoch,
    /// elects the lowest client id as the direct offerer, tears down every member's
    /// SFU leg on the worker, frees the assignment, and emits `Downgraded` so each
    /// browser is told to close its SFU peer connection and negotiate directly.
    pub(super) fn commit_downgrade(&mut self, room_id: RoomId) -> (r: Result<(), String>)
        ensures
            final(self)@ == old(self)@.commit_downgrade(room_id).0,
            seqs::result_view(r) == old(self)@.commit_downgrade(room_id).1,
    {
        let room = match self.rooms.get_mut(&room_id) {
            None => {
                return Err("ROOM_NOT_FOUND".to_string());
            },
            Some(room) => room,
        };
        let ghost before = room@;
        room.mode = RoomMode::P2p;
        room.signal_epoch = room.signal_epoch.saturating_add(1);
        room.downgrade_deadline = None;
        let assignment_epoch: u64 = room.assignment_epoch;
        let instance_id = room.assigned_instance.take();
        let clients = room.members.keys();
        proof {
            ord_map::lemma_in_order::<u64>(before.members.dom());
        }
        if clients.len() == 0 {
            return Err("CLIENT_NOT_FOUND".to_string());
        }
        let initiator_client_id: ClientId = clients[0];
        let leaving = room.projections();
        reset_members(&mut room.members, Some(initiator_client_id));
        let signal_epoch: u64 = room.signal_epoch;
        assert(leaving@ =~= before.projections());
        if let Some(instance_id) = instance_id {
            let connection = self.release_worker(&instance_id, room_id, leaving.len());
            if let Some(connection_id) = connection {
                self.leave_all(&instance_id, connection_id, room_id, assignment_epoch, &leaving);
            }
        }
        self.actions.push_back(
            Action::Downgraded { room_id, signal_epoch, initiator_client_id, clients },
        );
        Ok(())
    }

    /// Admits a client: as the first or second member of a direct room, or with
    /// an upgrade to a worker as the third, or to the worker of a larger room.
    pub fn admit_client(
        &mut self,
        authority_request_id: u64,
        now: Instant,
        room_id: RoomId,
        client_id: ClientId,
        admission_token: String,
    ) -> (r: Result<AdmissionResult, String>)
        ensures
            (final(self)@, seqs::result_view(r)) == old(self)@.admit_client(
                authority_request_id,
                now,
                room_id,
                client_id,
                admission_token@,
            ),
            old(self)@.inv() ==> final(self)@.inv(),
    {
        proof {
            if self@.inv() {
                invariants::law_admit_client_keeps_inv(
                    self@,
                    authority_request_id,
                    now,
                    room_id,
                    client_id,
                    admission_token@,
                );
            }
        }
        let (mode, count, busy) = match self.rooms.get(&room_id) {
            None => {
                let lifecycle_id: u64 = self.next_lifecycle(room_id, client_id);
                let mut members = OrdMap::new();
                members.insert(
                    client_id,
                    new_member(
                        now,
                        self.reconnect_grace,
                        admission_token.clone(),
                        true,
                        lifecycle_id,
                    ),
                );
                self.rooms.insert(
                    room_id,
                    Room {
                        members,
                        mode: RoomMode::P2p,
                        signal_epoch: 0,
                        assignment_epoch: 0,
                        assigned_instance: None,
                        upgrade: None,
                        pending_join: None,
                        pending_leave: None,
                        downgrade_deadline: None,
                    },
                );
                return Ok(
                    AdmissionResult::Complete(
                        Admission {
                            mode: RoomMode::P2p,
                            signal_epoch: 0,
                            admission_token,
                            is_initiator: Some(true),
                        },
                    ),
                );
            },
            Some(room) => {
                if room.members.contains_key(&client_id) {
                    return Err("DUPLICATE_CLIENT".to_string());
                }
                let busy = room.pending_join.is_some() || room.pending_leave.is_some();
                (room.mode, room.members.len(), busy)
            },
        };
        match mode {
            RoomMode::Upgrading => Err("ROOM_TRANSITION".to_string()),
            RoomMode::Failed => Err("WORKER_UNAVAILABLE".to_string()),
            RoomMode::Sfu => {
                if busy {
                    return Err("ROOM_TRANSITION".to_string());
                }
                self.admit_to_sfu(authority_request_id, now, room_id, client_id, admission_token)
            },
            RoomMode::P2p => {
                if count < MAX_P2P_MEMBERS {
                    return self.admit_directly(now, room_id, client_id, admission_token);
                }
                match self.select_worker(3) {
                    None => Err("NO_SFU_AVAILABLE".to_string()),
                    Some(instance_id) => {
                        let ghost before = self@;
                        self.begin_upgrade(
                            authority_request_id,
                            now,
                            room_id,
                            client_id,
                            admission_token,
                            instance_id,
                        );
                        proof {
                            let room = before.rooms[room_id];
                            ord_map::lemma_in_order::<u64>(room.members.dom());
                            if room.clients().len() > 0 {
                                assert(room.clients().contains(room.clients()[0]));
                                assert(room.members.dom().contains(room.clients()[0]));
                            }
                        }
                        match self.issue_next_upgrade_join(room_id) {
                            Ok(_) => Ok(AdmissionResult::Pending),
                            Err(reason) => Err(reason),
                        }
                    },
                }
            },
        }
    }

    fn admit_directly(
        &mut self,
        now: Instant,
        room_id: RoomId,
        client_id: ClientId,
        admission_token: String,
    ) -> (r: Result<AdmissionResult, String>)
        requires
            old(self)@.rooms.contains_key(room_id),
        ensures
            ({
                let room = old(self)@.rooms[room_id];
                let member = old(self)@.admitted_member(
                    now,
                    room_id,
                    client_id,
                    admission_token@,
                    false,
                );
                &&& final(self)@ == old(self)@.with_lifecycle(room_id, client_id).with_room(
                    room_id,
                    room.with_member(client_id, member),
                )
                &&& seqs::result_view(r) == Ok::<super::AdmissionResultView, Seq<char>>(
                    super::AdmissionResultView::direct(room.signal_epoch, admission_token@, false),
                )
            }),
    {
        let lifecycle_id: u64 = self.next_lifecycle(room_id, client_id);
        let mut signal_epoch: u64 = 0;
        if let Some(room) = self.rooms.get_mut(&room_id) {
            room.members.insert(
                client_id,
                new_member(
                    now,
                    self.reconnect_grace,
                    admission_token.clone(),
                    false,
                    lifecycle_id,
                ),
            );
            signal_epoch = room.signal_epoch;
        }
        Ok(
            AdmissionResult::Complete(
                Admission {
                    mode: RoomMode::P2p,
                    signal_epoch,
                    admission_token,
                    is_initiator: Some(false),
                },
            ),
        )
    }

    /// Assigns a room to a worker and lines its members up to join there. The
    /// new member is always joined last. A worker membership lifecycle begins at
    /// the upgrade boundary, so the other members get fresh lifecycle ids as well.
    fn begin_upgrade(
        &mut self,
        authority_request_id: u64,
        now: Instant,
        room_id: RoomId,
        client_id: ClientId,
        admission_token: String,
        instance_id: String,
    )
        requires
            old(self)@.rooms.contains_key(room_id),
            !old(self)@.rooms[room_id].has(client_id),
            old(self)@.workers.contains_key(instance_id@),
        ensures
            final(self)@ == old(self)@.upgrading(
                authority_request_id,
                room_id,
                client_id,
                old(self)@.admitted_member(now, room_id, client_id, admission_token@, false),
                instance_id@,
            ),
    {
        let ghost start = self@;
        let lifecycle_id: u64 = self.next_lifecycle(room_id, client_id);
        let ghost ids = self@.lifecycle_ids;
        if let Some(room) = self.rooms.get_mut(&room_id) {
            let ghost members = room@.members;
            let mut ordered_clients = room.members.keys();
            restart_lifecycles(&mut self.lifecycle_ids, room_id, &mut room.members);
            room.members.insert(
                client_id,
                new_member(now, self.reconnect_grace, admission_token, false, lifecycle_id),
            );
            room.mode = RoomMode::Upgrading;
            room.assignment_epoch = room.assignment_epoch.saturating_add(1);
            room.assigned_instance = Some(instance_id.clone());
            ordered_clients.push(client_id);
            room.upgrade = Some(
                Upgrade {
                    authority_request_id,
                    joining_client_id: client_id,
                    ordered_clients,
                    joined_clients: Vec::new(),
                    next_client: 0,
                },
            );
            proof {
                assert forall|c: u64| members.contains_key(c) implies model::next_lifecycle_in(
                    ids,
                    room_id,
                    c,
                ) == start.next_lifecycle(room_id, c) by {}
                assert(room@.members =~= members.map_entries(
                    |c: u64, m: model::Member|
                        model::Member { lifecycle_id: start.next_lifecycle(room_id, c), ..m },
                ).insert(
                    client_id,
                    start.admitted_member(now, room_id, client_id, admission_token@, false),
                ));
            }
        }
        if let Some(worker) = self.workers.get_mut(&instance_id) {
            worker.assigned_rooms.insert(room_id);
            worker.assigned_clients = worker.assigned_clients.saturating_add(3);
        }
        proof {
            let end = start.upgrading(
                authority_request_id,
                room_id,
                client_id,
                start.admitted_member(now, room_id, client_id, admission_token@, false),
                instance_id@,
            );
            assert(self@.lifecycle_ids =~= end.lifecycle_ids);
            assert(self@ =~= end);
        }
    }

    fn admit_to_sfu(
        &mut self,
        authority_request_id: u64,
        now: Instant,
        room_id: RoomId,
        client_id: ClientId,
        admission_token: String,
    ) -> (r: Result<AdmissionResult, String>)
        requires
            old(self)@.rooms.contains_key(room_id),
        ensures
            (final(self)@, seqs::result_view(r)) == old(self)@.admit_to_sfu(
                authority_request_id,
                now,
                room_id,
                client_id,
                admission_token@,
            ),
    {
        let (instance_id, connection_id) = match self.serving(room_id) {
            None => {
                return Err("WORKER_UNAVAILABLE".to_string());
            },
            Some(serving) => serving,
        };
        let lifecycle_id: u64 = self.next_lifecycle(room_id, client_id);
        let mut assignment_epoch: u64 = 0;
        if let Some(room) = self.rooms.get_mut(&room_id) {
            room.members.insert(
                client_id,
                new_member(now, self.reconnect_grace, admission_token, false, lifecycle_id),
            );
            room.pending_join = Some(PendingJoin { authority_request_id, client_id });
            // A new member is joining, so the room is no longer a downgrade candidate.
            room.downgrade_deadline = None;
            assignment_epoch = room.assignment_epoch;
        }
        let join = sfu::JoinMember { room_id, client_id, lifecycle_id, assignment_epoch };
        self.issue_command(
            instance_id.clone(),
            connection_id,
            sfu::CommandKind::Join(join),
            PendingCommand::SfuJoin { instance_id, join },
        );
        Ok(AdmissionResult::Pending)
    }
}

} // verus!
