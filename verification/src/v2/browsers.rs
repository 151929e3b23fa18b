//! What browsers do: register, send, leave and go away.

use super::members::{drain_queues, push_queued};
use super::{invariants, model};
use super::{
    ClientId, Delivery, PendingCommand, PendingLeave, Registration, RemovalResult,
    RoomId, RoomMode, RoomTable, SendResult,
};
use crate::ord_map;
use crate::seqs;
use crate::sfu;
use crate::text;
use crate::time::Instant;
use vstd::prelude::*;

verus! {

broadcast use {crate::seqs::group_views, crate::ord_map::group_maps};

impl RoomTable {
    /// Registers the browser of an admitted client. Only the token of its
    /// admission opens the way; the messages that a direct peer has queued for
    /// it come along.
    pub fn register(&mut self, room_id: RoomId, client_id: ClientId, token: &str) -> (r: Result<
        Registration,
        String,
    >)
        ensures
            (final(self)@, seqs::result_view(r)) == old(self)@.register(room_id, client_id, token@),
            old(self)@.inv() ==> final(self)@.inv(),
    {
        proof {
            if self@.inv() {
                invariants::law_register_keeps_inv(self@, room_id, client_id, token@);
            }
        }
        let room = match self.rooms.get_mut(&room_id) {
            None => {
                return Err("UNAUTHORIZED".to_string());
            },
            Some(room) => room,
        };
        let ghost before = room@;
        if room.mode == RoomMode::Upgrading {
            return Err("ROOM_TRANSITION".to_string());
        }
        let is_initiator = match room.members.get_mut(&client_id) {
            None => {
                return Err("UNAUTHORIZED".to_string());
            },
            Some(member) => {
                if !text::same_secret(member.token.as_str(), token) {
                    return Err("UNAUTHORIZED".to_string());
                }
                if member.registered {
                    return Err("Duplicated registration".to_string());
                }
                member.registered = true;
                member.reconnect_deadline = None;
                member.is_initiator
            },
        };
        let direct = room.mode == RoomMode::P2p;
        let ghost here = room@;
        let queued_messages = if direct {
            let queued = drain_queues(&mut room.members, client_id);
            proof {
                assert(here.members.dom() =~= before.members.dom());
                ord_map::lemma_in_order::<u64>(before.members.dom());
                seqs::lemma_filter_contains(before.clients(), model::other_than(client_id));
                assert(before.others(client_id).map_values(model::queue_of(here.members))
                    =~= before.others(client_id).map_values(model::queue_of(before.members))) by {
                    assert forall|j: int| 0 <= j < before.others(client_id).len() implies (
                    #[trigger] before.others(client_id)[j]) != client_id by {
                        assert(before.others(client_id).contains(before.others(client_id)[j]));
                    }
                }
            }
            queued
        } else {
            Vec::new()
        };
        Ok(
            Registration {
                mode: room.mode,
                signal_epoch: room.signal_epoch,
                is_initiator: if direct {
                    Some(is_initiator)
                } else {
                    None
                },
                queued_messages,
            },
        )
    }

    /// The browser of a client is gone.
    ///
    /// An SFU member whose connection drops leaves at once: the worker is told so
    /// that its forwarded media stops without waiting out the reconnect grace.
    /// Where the worker cannot be told yet, and for P2P and upgrading members, the
    /// grace starts, so that a quick refresh can rejoin without collapsing the call
    /// or prematurely promoting the survivor.
    pub fn deregister(&mut self, now: Instant, room_id: RoomId, client_id: ClientId)
        ensures
            final(self)@ == old(self)@.deregister(now, room_id, client_id),
            old(self)@.inv() ==> final(self)@.inv(),
    {
        proof {
            if self@.inv() {
                invariants::law_deregister_keeps_inv(self@, now, room_id, client_id);
            }
        }
        match self.rooms.get_mut(&room_id) {
            None => {
                return;
            },
            Some(room) => match room.members.get_mut(&client_id) {
                None => {
                    return;
                },
                Some(member) => {
                    if !member.registered {
                        return;
                    }
                    member.registered = false;
                },
            },
        }
        if self.issue_sfu_leave(room_id, client_id, sfu::LeaveReason::Disconnected) {
            return;
        }
        self.start_grace(now, room_id, client_id);
    }

    /// Starts the reconnect grace of a member.
    pub(super) fn start_grace(&mut self, now: Instant, room_id: RoomId, client_id: ClientId)
        requires
            old(self)@.is_member(room_id, client_id),
        ensures
            final(self)@ == old(self)@.with_grace(now, room_id, client_id),
    {
        if let Some(room) = self.rooms.get_mut(&room_id) {
            if let Some(member) = room.members.get_mut(&client_id) {
                member.reconnect_deadline = Some(now.after(self.reconnect_grace));
            }
        }
    }

    /// Queues an immediate `Leave` command to the SFU worker owning `room_id`,
    /// recording the room's pending leave. Returns `false` (queuing nothing) when
    /// the room or member is gone, a leave is already in flight, or no worker
    /// connection is available; the caller then falls back to a reconnect deadline
    /// that `handle_timeout` retries.
    pub(super) fn issue_sfu_leave(
        &mut self,
        room_id: RoomId,
        client_id: ClientId,
        reason: sfu::LeaveReason,
    ) -> (r: bool)
        ensures
            match old(self)@.issue_sfu_leave(room_id, client_id, reason) {
                Some(t) => r && final(self)@ == t,
                None => !r && final(self)@ == old(self)@,
            },
    {
        match self.rooms.get(&room_id) {
            None => {
                return false;
            },
            Some(room) => {
                if room.mode != RoomMode::Sfu || room.pending_leave.is_some()
                    || !room.members.contains_key(&client_id) {
                    return false;
                }
            },
        }
        match self.serving(room_id) {
            None => false,
            Some((instance_id, connection_id)) => {
                self.begin_leave(room_id, client_id, None, reason, instance_id, connection_id);
                true
            },
        }
    }

    fn begin_leave(
        &mut self,
        room_id: RoomId,
        client_id: ClientId,
        authority_request_id: Option<u64>,
        reason: sfu::LeaveReason,
        instance_id: String,
        connection_id: sfu::ConnectionId,
    )
        requires
            old(self)@.is_member(room_id, client_id),
        ensures
            final(self)@ == old(self)@.leaving(
                room_id,
                client_id,
                authority_request_id,
                reason,
                instance_id@,
                connection_id,
            ),
    {
        let mut lifecycle_id: u64 = 0;
        let mut assignment_epoch: u64 = 0;
        if let Some(room) = self.rooms.get_mut(&room_id) {
            if let Some(member) = room.members.get(&client_id) {
                lifecycle_id = member.lifecycle_id;
            }
            assignment_epoch = room.assignment_epoch;
            room.pending_leave = Some(PendingLeave { authority_request_id, client_id });
        }
        self.issue_command(
            instance_id.clone(),
            connection_id,
            sfu::CommandKind::Leave(
                sfu::LeaveMember { room_id, client_id, lifecycle_id, assignment_epoch, reason },
            ),
            PendingCommand::SfuLeave {
                instance_id,
                room_id,
                client_id,
                lifecycle_id,
                assignment_epoch,
            },
        );
    }

    /// Relays a message of a member: to the worker of its room, or to its direct
    /// peer, or into its queue while no peer is connected. A message of another
    /// signal epoch, or one sent while the room is upgrading, is dropped.
    pub fn send(
        &mut self,
        room_id: RoomId,
        client_id: ClientId,
        signal_epoch: u64,
        message: String,
    ) -> (r: Result<SendResult, String>)
        ensures
            (final(self)@, seqs::result_view(r)) == old(self)@.send(
                room_id,
                client_id,
                signal_epoch,
                message@,
            ),
            old(self)@.inv() ==> final(self)@.inv(),
    {
        proof {
            if self@.inv() {
                invariants::law_send_keeps_inv(self@, room_id, client_id, signal_epoch, message@);
            }
        }
        let room = match self.rooms.get_mut(&room_id) {
            None => {
                return Err("CLIENT_NOT_FOUND".to_string());
            },
            Some(room) => room,
        };
        if room.signal_epoch != signal_epoch || room.mode == RoomMode::Upgrading {
            return Ok(SendResult::Dropped);
        }
        if !room.members.contains_key(&client_id) {
            return Err("CLIENT_NOT_FOUND".to_string());
        }
        if room.mode == RoomMode::Sfu {
            return self.send_to_worker(room_id, client_id, message);
        }
        let others = room.other_clients(client_id);
        proof {
            ord_map::lemma_in_order::<u64>(room@.members.dom());
            seqs::lemma_filter_contains(room@.clients(), model::other_than(client_id));
            if others@.len() > 0 {
                assert(others@.contains(others@[0]));
                assert(room@.members.dom().contains(others@[0]));
            }
        }
        if others.len() > 0 {
            let peer_id: ClientId = others[0];
            if let Some(peer) = room.members.get(&peer_id) {
                if peer.registered {
                    return Ok(
                        SendResult::P2p(Some(Delivery { room_id, client_id: peer_id, message })),
                    );
                }
            }
        }
        match room.members.get_mut(&client_id) {
            None => Err("CLIENT_NOT_FOUND".to_string()),
            Some(source) => match push_queued(source, message) {
                Ok(_) => Ok(SendResult::P2p(None)),
                Err(reason) => Err(reason),
            },
        }
    }

    fn send_to_worker(&mut self, room_id: RoomId, client_id: ClientId, message: String) -> (r:
        Result<SendResult, String>)
        requires
            old(self)@.is_member(room_id, client_id),
        ensures
            (final(self)@, seqs::result_view(r)) == old(self)@.send_to_worker(
                room_id,
                client_id,
                message@,
            ),
    {
        let (instance_id, connection_id) = match self.serving(room_id) {
            None => {
                return Err("WORKER_UNAVAILABLE".to_string());
            },
            Some(serving) => serving,
        };
        let mut lifecycle_id: u64 = 0;
        let mut assignment_epoch: u64 = 0;
        if let Some(room) = self.rooms.get(&room_id) {
            if let Some(member) = room.members.get(&client_id) {
                lifecycle_id = member.lifecycle_id;
            }
            assignment_epoch = room.assignment_epoch;
        }
        self.issue_command(
            instance_id,
            connection_id,
            sfu::CommandKind::Signal(
                sfu::Signal {
                    room_id,
                    client_id,
                    lifecycle_id,
                    assignment_epoch,
                    message_json: message,
                    sdp_request_id: None,
                },
            ),
            PendingCommand::Signal,
        );
        Ok(SendResult::Sfu)
    }

    /// Removes a client for good. A direct room promotes the survivor; from a
    /// worker the client first has to leave, and the survivor is promoted then.
    pub fn remove(
        &mut self,
        authority_request_id: u64,
        room_id: RoomId,
        client_id: ClientId,
        token: &str,
    ) -> (r: Result<RemovalResult, String>)
        ensures
            (final(self)@, seqs::result_view(r)) == old(self)@.remove(
                authority_request_id,
                room_id,
                client_id,
                token@,
            ),
            old(self)@.inv() ==> final(self)@.inv(),
    {
        proof {
            if self@.inv() {
                invariants::law_remove_keeps_inv(
                    self@,
                    authority_request_id,
                    room_id,
                    client_id,
                    token@,
                );
            }
        }
        let room = match self.rooms.get_mut(&room_id) {
            None => {
                return Err("ROOM_NOT_FOUND".to_string());
            },
            Some(room) => room,
        };
        match room.members.get(&client_id) {
            None => {
                return Err("CLIENT_NOT_FOUND".to_string());
            },
            Some(member) => {
                if !text::same_secret(member.token.as_str(), token) {
                    return Err("UNAUTHORIZED".to_string());
                }
            },
        }
        if room.mode == RoomMode::Upgrading || room.pending_join.is_some()
            || room.pending_leave.is_some() {
            return Err("ROOM_TRANSITION".to_string());
        }
        if room.mode == RoomMode::Sfu {
            return match self.serving(room_id) {
                None => Err("WORKER_UNAVAILABLE".to_string()),
                Some((instance_id, connection_id)) => {
                    self.begin_leave(
                        room_id,
                        client_id,
                        Some(authority_request_id),
                        sfu::LeaveReason::User,
                        instance_id,
                        connection_id,
                    );
                    Ok(RemovalResult::Pending)
                },
            };
        }
        room.members.remove(&client_id);
        let promotion = room.promote_survivor(room_id);
        if room.members.is_empty() {
            self.rooms.remove(&room_id);
        }
        Ok(RemovalResult::Complete(promotion))
    }
}

} // verus!
