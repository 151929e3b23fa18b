//! What time brings, and what the table holds.

use super::{invariants, model};
use super::{Action, ClientId, Promotion, Room, RoomId, RoomMode, RoomTable};
use crate::ord_map;
use crate::seqs;
use crate::sfu;
use crate::time;
use crate::time::Instant;
use vstd::prelude::*;

verus! {

broadcast use {crate::seqs::group_views, crate::ord_map::group_maps};

impl RoomTable {
    /// Works off everything that is due: workers whose grace is over, downgrades,
    /// and members that did not come back. Only an actual removal can leave a
    /// survivor to promote.
    pub fn handle_timeout(&mut self, now: Instant) -> (r: Vec<Promotion>)
        ensures
            (final(self)@, r@) == old(self)@.handle_timeout(now),
            old(self)@.inv() ==> final(self)@.inv(),
    {
        proof {
            if self@.inv() {
                invariants::law_timeout_keeps_inv(self@, now);
            }
        }
        let expired = self.expired_workers(now);
        let ghost start = self@;
        let ghost names = seqs::views(expired@);
        let mut i: usize = 0;
        while i < expired.len()
            invariant
                i <= expired@.len(),
                names == seqs::views(expired@),
                self@ == start.expire_workers(names.take(i as int)),
            decreases expired@.len() - i,
        {
            assert(names.take(i + 1).drop_last() =~= names.take(i as int));
            self.expire_worker(&expired[i]);
            i = i + 1;
        }
        assert(names.take(i as int) =~= names);
        let ghost middle = self@;
        let room_ids = self.rooms.keys();
        let mut promotions: Vec<Promotion> = Vec::new();
        let mut j: usize = 0;
        while j < room_ids.len()
            invariant
                j <= room_ids@.len(),
                (self@, promotions@) == middle.sweep_rooms(now, room_ids@.take(j as int)),
            decreases room_ids@.len() - j,
        {
            assert(room_ids@.take(j + 1).drop_last() =~= room_ids@.take(j as int));
            if let Some(promotion) = self.sweep_room(now, room_ids[j]) {
                promotions.push(promotion);
            }
            j = j + 1;
        }
        assert(room_ids@.take(j as int) =~= room_ids@);
        promotions
    }

    fn expired_workers(&self, now: Instant) -> (r: Vec<String>)
        ensures
            seqs::views(r@) == self@.expired_workers(now),
    {
        let ghost names = ord_map::in_order::<String>(self@.workers.dom());
        let ghost p = |i: Seq<char>| model::reached(self@.workers[i].disconnect_deadline, now);
        proof {
            ord_map::lemma_in_order::<String>(self@.workers.dom());
            seqs::lemma_filter_ends(names, p);
        }
        let mut r: Vec<String> = Vec::new();
        let mut i: usize = 0;
        while i < self.workers.len()
            invariant
                i <= self@.workers.dom().len(),
                names == ord_map::in_order::<String>(self@.workers.dom()),
                names.len() == self@.workers.dom().len(),
                p == (|i: Seq<char>| model::reached(self@.workers[i].disconnect_deadline, now)),
                seqs::views(r@) == names.take(i as int).filter(p),
            decreases self@.workers.dom().len() - i,
        {
            proof {
                seqs::lemma_filter_take(names, p, i as int);
            }
            if let Some(deadline) = self.workers.value_at(i).disconnect_deadline {
                if deadline.is_due(now) {
                    r.push(self.workers.key_at(i).clone());
                }
            }
            i = i + 1;
        }
        r
    }

    fn sweep_room(&mut self, now: Instant, room_id: RoomId) -> (r: Option<Promotion>)
        ensures
            (final(self)@, r) == old(self)@.sweep_room(now, room_id),
    {
        let ghost start = self@;
        let room = match self.rooms.get_mut(&room_id) {
            None => {
                return None;
            },
            Some(room) => room,
        };
        let downgrade_due = match room.downgrade_deadline {
            Some(deadline) => deadline.is_due(now),
            None => false,
        };
        if downgrade_due {
            // A third member may have joined during the dwell.
            if room.is_downgrade_eligible() {
                let _ = self.commit_downgrade(room_id);
            } else {
                room.downgrade_deadline = None;
            }
            return None;
        }
        if room.mode == RoomMode::Sfu && room.pending_leave.is_none() {
            let expired = room.expired_clients(now);
            if expired.len() > 0 {
                // Retry the leave that could not be issued when the browser
                // disconnected; re-arm the grace if it still cannot go out.
                let client_id: ClientId = expired[0];
                proof {
                    let room = start.rooms[room_id];
                    ord_map::lemma_in_order::<u64>(room.members.dom());
                    seqs::lemma_filter_contains(
                        room.clients(),
                        |c: u64| room.members[c].expired(now),
                    );
                    assert(room.expired_clients(now).contains(client_id));
                    assert(room.members.dom().contains(client_id));
                }
                if !self.issue_sfu_leave(room_id, client_id, sfu::LeaveReason::Disconnected) {
                    self.start_grace(now, room_id, client_id);
                }
            }
            return None;
        }
        if room.mode != RoomMode::P2p {
            return None;
        }
        let mut promotion: Option<Promotion> = None;
        if room.remove_expired(now) {
            promotion = room.promote_survivor(room_id);
        }
        if room.members.is_empty() {
            self.rooms.remove(&room_id);
        }
        promotion
    }

    /// When `handle_timeout` has something to do next.
    pub fn poll_timeout(&self) -> (r: Option<Instant>)
        ensures
            time::is_earliest(r, |t: Instant| self@.is_deadline(t)),
    {
        let a = self.room_timeout();
        let b = self.worker_timeout();
        let r = time::earlier(a, b);
        let ghost p = |t: Instant|
            exists|id: u64| self@.is_room_deadline(id, t);
        let ghost q = |t: Instant| exists|i: Seq<char>| self@.is_disconnect_deadline(i, t);
        proof {
            time::lemma_earliest_either(a, b, p, q);
            let s = |t: Instant| self@.is_deadline(t);
            assert forall|t: Instant| (#[trigger] p(t) || q(t)) <==> s(t) by {
                if p(t) {
                    let id = choose|id: u64| self@.is_room_deadline(id, t);
                    assert(self@.is_room_deadline(id, t));
                }
                if exists|id: u64, c: u64| self@.is_reconnect_deadline(id, c, t) {
                    let (id, c) = choose|id: u64, c: u64| self@.is_reconnect_deadline(id, c, t);
                    assert(self@.is_room_deadline(id, t));
                }
                if exists|id: u64| self@.is_downgrade_deadline(id, t) {
                    let id = choose|id: u64| self@.is_downgrade_deadline(id, t);
                    assert(self@.is_room_deadline(id, t));
                }
            }
            time::lemma_earliest_same(r, |t: Instant| p(t) || q(t), s);
        }
        r
    }

    fn room_timeout(&self) -> (r: Option<Instant>)
        ensures
            time::is_earliest(r, |t: Instant| exists|id: u64| self@.is_room_deadline(id, t)),
    {
        let ghost ids = ord_map::in_order::<u64>(self@.rooms.dom());
        proof {
            ord_map::lemma_in_order::<u64>(self@.rooms.dom());
        }
        let mut r: Option<Instant> = None;
        let mut i: usize = 0;
        while i < self.rooms.len()
            invariant
                i <= self@.rooms.dom().len(),
                ids == ord_map::in_order::<u64>(self@.rooms.dom()),
                ids.len() == self@.rooms.dom().len(),
                forall|c: u64| #[trigger] self@.rooms.dom().contains(c) <==> ids.contains(c),
                time::is_earliest(
                    r,
                    |t: Instant|
                        exists|j: int| 0 <= j < i && self@.is_room_deadline(#[trigger] ids[j], t),
                ),
            decreases self@.rooms.dom().len() - i,
        {
            let ghost id = ids[i as int];
            assert(ids.contains(id));
            assert(self@.rooms.dom().contains(id));
            let room = self.rooms.value_at(i);
            let next = time::earlier(room.downgrade_deadline, room.member_timeout());
            let ghost p = |t: Instant|
                exists|j: int| 0 <= j < i && self@.is_room_deadline(#[trigger] ids[j], t);
            let ghost q = |t: Instant| self@.is_room_deadline(id, t);
            proof {
                let a = |t: Instant| room@.downgrade_deadline == Some(t);
                let b = |t: Instant| exists|c: u64| room@.is_member_deadline(c, t);
                assert(time::is_earliest(room.downgrade_deadline, a));
                lemma_room_member_timeout(room@);
                time::lemma_earliest_either(
                    room.downgrade_deadline,
                    room_member_timeout(room@),
                    a,
                    b,
                );
                assert forall|t: Instant| (#[trigger] a(t) || b(t)) <==> q(t) by {
                    if b(t) {
                        let c = choose|c: u64| room@.is_member_deadline(c, t);
                        assert(self@.is_reconnect_deadline(id, c, t));
                    }
                    if exists|c: u64| self@.is_reconnect_deadline(id, c, t) {
                        let c = choose|c: u64| self@.is_reconnect_deadline(id, c, t);
                        assert(room@.is_member_deadline(c, t));
                    }
                }
                time::lemma_earliest_same(next, |t: Instant| a(t) || b(t), q);
                time::lemma_earliest_either(r, next, p, q);
                let s = |t: Instant|
                    exists|j: int| 0 <= j < i + 1 && self@.is_room_deadline(#[trigger] ids[j], t);
                assert forall|t: Instant| (#[trigger] p(t) || q(t)) <==> s(t) by {
                    if q(t) {
                        assert(self@.is_room_deadline(ids[i as int], t));
                    }
                }
                time::lemma_earliest_same(
                    time::earliest_of(r, next),
                    |t: Instant| p(t) || q(t),
                    s,
                );
            }
            r = time::earlier(r, next);
            i = i + 1;
        }
        proof {
            let p = |t: Instant|
                exists|j: int| 0 <= j < i && self@.is_room_deadline(#[trigger] ids[j], t);
            let q = |t: Instant| exists|id: u64| self@.is_room_deadline(id, t);
            assert forall|t: Instant| #[trigger] p(t) <==> q(t) by {
                if q(t) {
                    let id = choose|id: u64| self@.is_room_deadline(id, t);
                    assert(self@.rooms.dom().contains(id));
                    assert(ids.contains(id));
                    let j = choose|j: int| 0 <= j < ids.len() && ids[j] == id;
                    assert(self@.is_room_deadline(ids[j], t));
                }
            }
            time::lemma_earliest_same(r, p, q);
        }
        r
    }

    fn worker_timeout(&self) -> (r: Option<Instant>)
        ensures
            time::is_earliest(
                r,
                |t: Instant| exists|i: Seq<char>| self@.is_disconnect_deadline(i, t),
            ),
    {
        let ghost names = ord_map::in_order::<String>(self@.workers.dom());
        proof {
            ord_map::lemma_in_order::<String>(self@.workers.dom());
        }
        let mut r: Option<Instant> = None;
        let mut i: usize = 0;
        while i < self.workers.len()
            invariant
                i <= self@.workers.dom().len(),
                names == ord_map::in_order::<String>(self@.workers.dom()),
                names.len() == self@.workers.dom().len(),
                forall|c: Seq<char>| #[trigger]
                    self@.workers.dom().contains(c) <==> names.contains(c),
                time::is_earliest(
                    r,
                    |t: Instant|
                        exists|j: int|
                            0 <= j < i && self@.is_disconnect_deadline(#[trigger] names[j], t),
                ),
            decreases self@.workers.dom().len() - i,
        {
            assert(names.contains(names[i as int]));
            assert(self@.workers.dom().contains(names[i as int]));
            let next = self.workers.value_at(i).disconnect_deadline;
            proof {
                let p = |t: Instant|
                    exists|j: int|
                        0 <= j < i && self@.is_disconnect_deadline(#[trigger] names[j], t);
                let q = |t: Instant| self@.is_disconnect_deadline(names[i as int], t);
                assert(time::is_earliest(next, q));
                time::lemma_earliest_either(r, next, p, q);
                let s = |t: Instant|
                    exists|j: int|
                        0 <= j < i + 1 && self@.is_disconnect_deadline(#[trigger] names[j], t);
                assert forall|t: Instant| (#[trigger] p(t) || q(t)) <==> s(t) by {
                    if q(t) {
                        assert(self@.is_disconnect_deadline(names[i as int], t));
                    }
                }
                time::lemma_earliest_same(
                    time::earliest_of(r, next),
                    |t: Instant| p(t) || q(t),
                    s,
                );
            }
            r = time::earlier(r, next);
            i = i + 1;
        }
        proof {
            let p = |t: Instant|
                exists|j: int| 0 <= j < i && self@.is_disconnect_deadline(#[trigger] names[j], t);
            let q = |t: Instant| exists|n: Seq<char>| self@.is_disconnect_deadline(n, t);
            assert forall|t: Instant| #[trigger] p(t) <==> q(t) by {
                if q(t) {
                    let n = choose|n: Seq<char>| self@.is_disconnect_deadline(n, t);
                    assert(self@.workers.dom().contains(n));
                    assert(names.contains(n));
                    let j = choose|j: int| 0 <= j < names.len() && names[j] == n;
                    assert(self@.is_disconnect_deadline(names[j], t));
                }
            }
            time::lemma_earliest_same(r, p, q);
        }
        r
    }

    pub fn poll_action(&mut self) -> (r: Option<Action>)
        ensures
            match r {
                Some(action) => old(self)@.actions.len() > 0 && action@ == old(self)@.actions[0]
                    && final(self)@ == (model::Table {
                    actions: old(self)@.actions.skip(1),
                    ..old(self)@
                }),
                None => old(self)@.actions.len() == 0 && final(self)@ == old(self)@,
            },
            old(self)@.inv() ==> final(self)@.inv(),
    {
        let r = self.actions.pop_front();
        proof {
            if r is Some {
                assert(self@.actions =~= old(self)@.actions.skip(1));
            }
        }
        r
    }

    pub fn clear(&mut self)
        ensures
            final(self)@ == old(self)@.cleared(),
            final(self)@.inv(),
    {
        proof {
            invariants::law_start_has_inv(self@, self@.reconnect_grace);
        }
        self.rooms.clear();
        self.workers.clear();
        self.pending_commands.clear();
        self.unacknowledged_commands.clear();
        self.command_workers.clear();
        self.actions.clear();
    }

    /// How many members a room has, and how it runs.
    pub fn occupancy(&self, room_id: RoomId) -> (r: (usize, RoomMode))
        ensures
            r.0 == self@.occupancy(room_id).0,
            r.1 == self@.occupancy(room_id).1,
    {
        match self.rooms.get(&room_id) {
            None => (0, RoomMode::P2p),
            Some(room) => (room.members.len(), room.mode),
        }
    }

    pub fn room_count(&self) -> (r: usize)
        ensures
            r == self@.rooms.dom().len(),
    {
        self.rooms.len()
    }

    /// How many members all rooms have, as far as that can be counted.
    pub fn member_count(&self) -> (r: usize)
        ensures
            r == seqs::countable(self@.member_count()),
    {
        let ghost ids = ord_map::in_order::<u64>(self@.rooms.dom());
        let ghost g = model::member_counts(self@.rooms);
        proof {
            ord_map::lemma_in_order::<u64>(self@.rooms.dom());
            assert(ids.take(0).map_values(g) =~= Seq::empty());
        }
        let mut r: usize = 0;
        let mut i: usize = 0;
        while i < self.rooms.len()
            invariant
                i <= self@.rooms.dom().len(),
                ids == ord_map::in_order::<u64>(self@.rooms.dom()),
                ids.len() == self@.rooms.dom().len(),
                g == model::member_counts(self@.rooms),
                r == seqs::countable(seqs::sum(ids.take(i as int).map_values(g))),
            decreases self@.rooms.dom().len() - i,
        {
            assert(ids.take(i + 1).map_values(g).drop_last() =~= ids.take(i as int).map_values(g));
            r = r.saturating_add(self.rooms.value_at(i).members.len());
            i = i + 1;
        }
        assert(ids.take(i as int) =~= ids);
        r
    }

    /// How many members have a browser connected, as far as that can be counted.
    pub fn registered_count(&self) -> (r: usize)
        ensures
            r == seqs::countable(self@.registered_count()),
    {
        let ghost ids = ord_map::in_order::<u64>(self@.rooms.dom());
        let ghost g = model::registered_counts(self@.rooms);
        proof {
            ord_map::lemma_in_order::<u64>(self@.rooms.dom());
            assert(ids.take(0).map_values(g) =~= Seq::empty());
        }
        let mut r: usize = 0;
        let mut i: usize = 0;
        while i < self.rooms.len()
            invariant
                i <= self@.rooms.dom().len(),
                ids == ord_map::in_order::<u64>(self@.rooms.dom()),
                ids.len() == self@.rooms.dom().len(),
                g == model::registered_counts(self@.rooms),
                r == seqs::countable(seqs::sum(ids.take(i as int).map_values(g))),
            decreases self@.rooms.dom().len() - i,
        {
            assert(ids.take(i + 1).map_values(g).drop_last() =~= ids.take(i as int).map_values(g));
            r = r.saturating_add(self.rooms.value_at(i).registered_count());
            i = i + 1;
        }
        assert(ids.take(i as int) =~= ids);
        r
    }

    /// How many workers are connected.
    pub fn connected_sfu_count(&self) -> (r: usize)
        ensures
            r == self@.connected_workers().len(),
    {
        let ghost names = ord_map::in_order::<String>(self@.workers.dom());
        let ghost p = model::is_connected(self@.workers);
        proof {
            ord_map::lemma_in_order::<String>(self@.workers.dom());
            seqs::lemma_filter_ends(names, p);
            ord_map::lemma_filter_len::<String>(self@.workers.dom(), p);
        }
        let mut r: usize = 0;
        let mut i: usize = 0;
        while i < self.workers.len()
            invariant
                i <= self@.workers.dom().len(),
                r <= i,
                names == ord_map::in_order::<String>(self@.workers.dom()),
                names.len() == self@.workers.dom().len(),
                p == model::is_connected(self@.workers),
                r == names.take(i as int).filter(p).len(),
            decreases self@.workers.dom().len() - i,
        {
            proof {
                seqs::lemma_filter_take(names, p, i as int);
            }
            if self.workers.value_at(i).connection_id.is_some() {
                r = r + 1;
            }
            i = i + 1;
        }
        r
    }

    /// How many workers are connected and say that they are ready.
    pub fn ready_sfu_count(&self) -> (r: usize)
        ensures
            r == self@.ready_workers().len(),
    {
        let ghost names = ord_map::in_order::<String>(self@.workers.dom());
        let ghost p = model::is_ready(self@.workers);
        proof {
            ord_map::lemma_in_order::<String>(self@.workers.dom());
            seqs::lemma_filter_ends(names, p);
            ord_map::lemma_filter_len::<String>(self@.workers.dom(), p);
        }
        let mut r: usize = 0;
        let mut i: usize = 0;
        while i < self.workers.len()
            invariant
                i <= self@.workers.dom().len(),
                r <= i,
                names == ord_map::in_order::<String>(self@.workers.dom()),
                names.len() == self@.workers.dom().len(),
                p == model::is_ready(self@.workers),
                r == names.take(i as int).filter(p).len(),
            decreases self@.workers.dom().len() - i,
        {
            proof {
                seqs::lemma_filter_take(names, p, i as int);
            }
            let worker = self.workers.value_at(i);
            let says_ready = match worker.health {
                Some(health) => health.state == sfu::State::Ready,
                None => false,
            };
            if worker.connection_id.is_some() && says_ready {
                r = r + 1;
            }
            i = i + 1;
        }
        r
    }
}

impl Room {
    fn registered_count(&self) -> (r: usize)
        ensures
            r == self@.registered().len(),
    {
        let ghost ids = ord_map::in_order::<u64>(self@.members.dom());
        let ghost p = model::is_registered(self@.members);
        proof {
            ord_map::lemma_in_order::<u64>(self@.members.dom());
            seqs::lemma_filter_ends(ids, p);
            ord_map::lemma_filter_len::<u64>(self@.members.dom(), p);
        }
        let mut r: usize = 0;
        let mut i: usize = 0;
        while i < self.members.len()
            invariant
                i <= self@.members.dom().len(),
                r <= i,
                ids == ord_map::in_order::<u64>(self@.members.dom()),
                ids.len() == self@.members.dom().len(),
                p == model::is_registered(self@.members),
                r == ids.take(i as int).filter(p).len(),
            decreases self@.members.dom().len() - i,
        {
            proof {
                seqs::lemma_filter_take(ids, p, i as int);
            }
            if self.members.value_at(i).registered {
                r = r + 1;
            }
            i = i + 1;
        }
        r
    }

    /// The next reconnect deadline that is watched.
    fn member_timeout(&self) -> (r: Option<Instant>)
        ensures
            r == room_member_timeout(self@),
    {
        proof {
            lemma_room_member_timeout(self@);
        }
        if !(self.mode == RoomMode::P2p || self.mode == RoomMode::Sfu
            && self.pending_leave.is_none()) {
            return None;
        }
        let ghost ids = ord_map::in_order::<u64>(self@.members.dom());
        let mut r: Option<Instant> = None;
        let mut i: usize = 0;
        while i < self.members.len()
            invariant
                i <= self@.members.dom().len(),
                ids == ord_map::in_order::<u64>(self@.members.dom()),
                r == earliest_member(self@, i as nat),
            decreases self@.members.dom().len() - i,
        {
            r = time::earlier(r, self.members.value_at(i).reconnect_deadline);
            i = i + 1;
        }
        r
    }
}

/// The earliest deadline of the first so many members.
spec fn earliest_member(room: model::Room, n: nat) -> Option<Instant>
    decreases n,
{
    if n == 0 {
        None
    } else {
        time::earliest_of(
            earliest_member(room, (n - 1) as nat),
            room.members[room.clients()[n - 1]].reconnect_deadline,
        )
    }
}

spec fn room_member_timeout(room: model::Room) -> Option<Instant> {
    if room.watches_members() {
        earliest_member(room, room.members.dom().len())
    } else {
        None
    }
}

proof fn lemma_earliest_member(room: model::Room, n: nat)
    ensures
        time::is_earliest(
            earliest_member(room, n),
            |t: Instant|
                exists|j: int|
                    0 <= j < n && room.members[#[trigger] room.clients()[j]].reconnect_deadline
                        == Some(t),
        ),
    decreases n,
{
    if n > 0 {
        let m = (n - 1) as nat;
        lemma_earliest_member(room, m);
        let last = room.members[room.clients()[n - 1]].reconnect_deadline;
        let p = |t: Instant|
            exists|j: int|
                0 <= j < m && room.members[#[trigger] room.clients()[j]].reconnect_deadline == Some(
                    t,
                );
        let q = |t: Instant| last == Some(t);
        assert(time::is_earliest(last, q));
        time::lemma_earliest_either(earliest_member(room, m), last, p, q);
        let s = |t: Instant|
            exists|j: int|
                0 <= j < n && room.members[#[trigger] room.clients()[j]].reconnect_deadline == Some(
                    t,
                );
        assert forall|t: Instant| (#[trigger] p(t) || q(t)) <==> s(t) by {
            if q(t) {
                let c = room.clients()[n - 1];
            }
        }
        time::lemma_earliest_same(earliest_member(room, n), |t: Instant| p(t) || q(t), s);
    }
}

proof fn lemma_room_member_timeout(room: model::Room)
    requires
        room.members.dom().finite(),
    ensures
        time::is_earliest(
            room_member_timeout(room),
            |t: Instant| exists|c: u64| room.is_member_deadline(c, t),
        ),
{
    let n = room.members.dom().len();
    let q = |t: Instant| exists|c: u64| room.is_member_deadline(c, t);
    ord_map::lemma_in_order::<u64>(room.members.dom());
    if room.watches_members() {
        lemma_earliest_member(room, n);
        let p = |t: Instant|
            exists|j: int|
                0 <= j < n && room.members[#[trigger] room.clients()[j]].reconnect_deadline == Some(
                    t,
                );
        assert forall|t: Instant| #[trigger] p(t) <==> q(t) by {
            if p(t) {
                let j = choose|j: int|
                    0 <= j < n && room.members[#[trigger] room.clients()[j]].reconnect_deadline
                        == Some(t);
                assert(room.clients().contains(room.clients()[j]));
                assert(room.members.dom().contains(room.clients()[j]));
                assert(room.is_member_deadline(room.clients()[j], t));
            }
            if q(t) {
                let c = choose|c: u64| room.is_member_deadline(c, t);
                assert(room.members.dom().contains(c));
                assert(room.clients().contains(c));
                let j = choose|j: int| 0 <= j < room.clients().len() && room.clients()[j] == c;
                assert(room.members[room.clients()[j]].reconnect_deadline == Some(t));
            }
        }
        time::lemma_earliest_same(room_member_timeout(room), p, q);
    }
}

} // verus!
