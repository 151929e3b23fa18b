//! What time brings, and what it leaves alone.

use super::{progress, upgrades};
use crate::ord_map;
use crate::seqs;
use crate::seqs::Text;
use crate::time::Instant;
use crate::v2::model::{Room, Table, Upgrade};
use crate::v2::{model, ActionView, Promotion, RoomMode};
use vstd::prelude::*;

verus! {

impl Table {
    /// Both tables say the same of a room.
    pub open spec fn agrees_on(self, other: Table, room_id: u64) -> bool {
        &&& self.rooms.contains_key(room_id) == other.rooms.contains_key(room_id)
        &&& self.rooms.contains_key(room_id) ==> self.rooms[room_id] == other.rooms[room_id]
    }

    /// The workers are connected as before and have no further rooms, clients and
    /// deadlines.
    pub open spec fn keeps_workers(self, later: Table) -> bool {
        &&& later.workers.dom() == self.workers.dom()
        &&& later.reconnect_grace == self.reconnect_grace
        &&& forall|i: Text| #[trigger]
            self.workers.contains_key(i) ==> {
                &&& later.workers[i].connection_id == self.workers[i].connection_id
                &&& later.workers[i].assigned_rooms.subset_of(self.workers[i].assigned_rooms)
                &&& later.workers[i].assigned_clients <= self.workers[i].assigned_clients
                &&& later.workers[i].disconnect_deadline is None
                    || later.workers[i].disconnect_deadline == self.workers[i].disconnect_deadline
            }
    }

    /// No worker whose grace is over has the room.
    pub open spec fn spares(self, now: Instant, room_id: u64) -> bool {
        forall|i: Text| #[trigger]
            self.workers.contains_key(i) && model::reached(self.workers[i].disconnect_deadline, now)
                ==> !self.workers[i].assigned_rooms.contains(room_id)
    }
}

pub proof fn lemma_lose_rooms_elsewhere(t: Table, rooms: Seq<u64>, room_id: u64)
    ensures
        t.keeps_workers(t.lose_rooms(rooms)),
        !rooms.contains(room_id) ==> t.agrees_on(t.lose_rooms(rooms), room_id),
    decreases rooms.len(),
{
    if rooms.len() > 0 {
        let front = rooms.drop_last();
        lemma_lose_rooms_elsewhere(t, front, room_id);
        let u = t.lose_rooms(front);
        let r = rooms.last();
        assert(rooms.contains(r));
        if front.contains(room_id) {
            assert(rooms.contains(room_id));
        }
        upgrades::lemma_abort_upgrade_rooms(u, r, "WORKER_UNAVAILABLE"@);
        progress::lemma_abort_upgrade(u, r, "WORKER_UNAVAILABLE"@);
        assert(u.lose_room(r).workers.dom() =~= u.workers.dom());
    }
}

proof fn lemma_expire_worker_elsewhere(t: Table, instance_id: Text, room_id: u64)
    requires
        t.workers.contains_key(instance_id) ==> t.workers[instance_id].assigned_rooms.finite()
            && !t.workers[instance_id].assigned_rooms.contains(room_id),
    ensures
        t.keeps_workers(t.expire_worker(instance_id)),
        t.agrees_on(t.expire_worker(instance_id), room_id),
{
    let rooms = if t.workers.contains_key(instance_id) {
        ord_map::in_order::<u64>(t.workers[instance_id].assigned_rooms)
    } else {
        Seq::empty()
    };
    if t.workers.contains_key(instance_id) {
        ord_map::lemma_in_order::<u64>(t.workers[instance_id].assigned_rooms);
    }
    assert(!rooms.contains(room_id));
    lemma_lose_rooms_elsewhere(t, rooms, room_id);
    let u = t.expire_worker(instance_id);
    assert(u.workers.dom() =~= t.workers.dom());
}

pub proof fn lemma_expire_workers_elsewhere(t: Table, instances: Seq<Text>, room_id: u64)
    requires
        forall|i: Text| #[trigger]
            t.workers.contains_key(i) ==> t.workers[i].assigned_rooms.finite(),
        forall|i: Text| #[trigger]
            instances.contains(i) && t.workers.contains_key(i)
                ==> !t.workers[i].assigned_rooms.contains(room_id),
    ensures
        t.keeps_workers(t.expire_workers(instances)),
        t.agrees_on(t.expire_workers(instances), room_id),
    decreases instances.len(),
{
    if instances.len() > 0 {
        let front = instances.drop_last();
        assert forall|i: Text| #[trigger] front.contains(i) implies instances.contains(i) by {}
        lemma_expire_workers_elsewhere(t, front, room_id);
        let u = t.expire_workers(front);
        let i = instances.last();
        assert(instances.contains(i));
        if u.workers.contains_key(i) {
            assert(t.workers.contains_key(i));
            vstd::set_lib::lemma_len_subset(
                u.workers[i].assigned_rooms,
                t.workers[i].assigned_rooms,
            );
        }
        lemma_expire_worker_elsewhere(u, i, room_id);
        assert forall|j: Text| #[trigger] t.workers.contains_key(j) implies u.expire_worker(
            i,
        ).workers[j].assigned_rooms.subset_of(t.workers[j].assigned_rooms) by {
            assert(u.workers.contains_key(j));
        }
    }
}

/// What the passing of time does to a room concerns that room alone.
pub proof fn lemma_sweep_room_elsewhere(t: Table, now: Instant, r: u64, room_id: u64)
    ensures
        t.keeps_workers(t.sweep_room(now, r).0),
        r != room_id ==> t.agrees_on(t.sweep_room(now, r).0, room_id),
{
    progress::law_single_room_leads_on(t, now, r);
    if t.rooms.contains_key(r) && t.rooms[r].downgrade_eligible() {
        upgrades::lemma_commit_downgrade_rooms(t, r);
    }
    assert(t.sweep_room(now, r).0.workers.dom() =~= t.workers.dom());
}

/// What the passing of time does to a room depends on the room, on the connections of
/// the workers and on the grace.
proof fn lemma_sweep_room_alike(t: Table, u: Table, now: Instant, r: u64)
    requires
        t.agrees_on(u, r),
        t.keeps_workers(u),
    ensures
        t.sweep_room(now, r).0.agrees_on(u.sweep_room(now, r).0, r),
        t.sweep_room(now, r).1 == u.sweep_room(now, r).1,
{
    if t.rooms.contains_key(r) {
        if t.rooms[r].downgrade_eligible() {
            upgrades::lemma_commit_downgrade_rooms(t, r);
            upgrades::lemma_commit_downgrade_rooms(u, r);
        }
        let room = t.rooms[r];
        if room.assigned_instance is Some {
            let i = room.assigned_instance->0;
            assert(t.workers.contains_key(i) == u.workers.dom().contains(i));
            assert(t.connection(i) == u.connection(i));
        }
        assert(t.serving(room) == u.serving(room));
    }
}

pub proof fn lemma_sweep_rooms_at(t: Table, now: Instant, rooms: Seq<u64>, room_id: u64)
    requires
        rooms.no_duplicates(),
    ensures
        t.keeps_workers(t.sweep_rooms(now, rooms).0),
        rooms.contains(room_id) ==> t.sweep_room(now, room_id).0.agrees_on(
            t.sweep_rooms(now, rooms).0,
            room_id,
        ),
        !rooms.contains(room_id) ==> t.agrees_on(t.sweep_rooms(now, rooms).0, room_id),
    decreases rooms.len(),
{
    if rooms.len() > 0 {
        let front = rooms.drop_last();
        let r = rooms.last();
        lemma_sweep_rooms_at(t, now, front, room_id);
        let u = t.sweep_rooms(now, front).0;
        lemma_sweep_room_elsewhere(u, now, r, room_id);
        assert(rooms[rooms.len() - 1] == r);
        if r == room_id {
            assert(!front.contains(room_id));
            lemma_sweep_room_alike(t, u, now, r);
        } else if rooms.contains(room_id) {
            let k = choose|k: int| 0 <= k < rooms.len() && rooms[k] == room_id;
            assert(front[k] == room_id);
        } else if front.contains(room_id) {
            let k = choose|k: int| 0 <= k < front.len() && front[k] == room_id;
            assert(rooms[k] == room_id);
        }
    }
}

/// Where no worker whose grace is over has a room, time does to the room what it does to
/// a single one.
pub proof fn lemma_timeout_at(t: Table, now: Instant, room_id: u64)
    requires
        t.inv(),
        t.spares(now, room_id),
    ensures
        t.sweep_room(now, room_id).0.agrees_on(t.handle_timeout(now).0, room_id),
{
    let gone = t.expired_workers(now);
    ord_map::lemma_in_order::<String>(t.workers.dom());
    seqs::lemma_filter_contains(
        ord_map::in_order::<String>(t.workers.dom()),
        |i: Text| model::reached(t.workers[i].disconnect_deadline, now),
    );
    lemma_expire_workers_elsewhere(t, gone, room_id);
    let u = t.expire_workers(gone);
    progress::lemma_expire_workers(t, gone);
    vstd::set_lib::lemma_len_subset(u.rooms.dom(), t.rooms.dom());
    let rooms = ord_map::in_order::<u64>(u.rooms.dom());
    ord_map::lemma_in_order::<u64>(u.rooms.dom());
    ord_map::lemma_ascending_no_duplicates::<u64>(rooms);
    lemma_sweep_rooms_at(u, now, rooms, room_id);
    lemma_sweep_room_alike(t, u, now, room_id);
    assert(rooms.contains(room_id) <==> u.rooms.dom().contains(room_id));
}

/// Before the first deadline time changes nothing and promotes nobody. A direct room
/// without members, which time would close, is the one thing that has no deadline.
pub proof fn law_nothing_happens_early(t: Table, now: Instant)
    requires
        t.inv(),
        forall|d: Instant| #[trigger] t.is_deadline(d) ==> !d.due(now),
        forall|r: u64| #[trigger]
            t.rooms.contains_key(r) && t.rooms[r].mode == RoomMode::P2p
                ==> t.rooms[r].members.dom().len() > 0,
    ensures
        t.handle_timeout(now) == (t, Seq::<Promotion>::empty()),
{
    let gone = t.expired_workers(now);
    ord_map::lemma_in_order::<String>(t.workers.dom());
    let names = ord_map::in_order::<String>(t.workers.dom());
    let late = |i: Text| model::reached(t.workers[i].disconnect_deadline, now);
    seqs::lemma_filter_contains(names, late);
    if gone.len() > 0 {
        let i = gone[0];
        assert(gone.contains(i));
        assert(t.workers.dom().contains(i));
        let d = t.workers[i].disconnect_deadline->0;
        assert(t.is_disconnect_deadline(i, d));
        assert(t.is_deadline(d));
    }
    lemma_early_sweeps(t, now, ord_map::in_order::<u64>(t.rooms.dom()));
}

proof fn lemma_early_sweeps(t: Table, now: Instant, rooms: Seq<u64>)
    requires
        t.inv(),
        forall|d: Instant| #[trigger] t.is_deadline(d) ==> !d.due(now),
        forall|r: u64| #[trigger]
            t.rooms.contains_key(r) && t.rooms[r].mode == RoomMode::P2p
                ==> t.rooms[r].members.dom().len() > 0,
    ensures
        t.sweep_rooms(now, rooms) == (t, Seq::<Promotion>::empty()),
    decreases rooms.len(),
{
    if rooms.len() > 0 {
        lemma_early_sweeps(t, now, rooms.drop_last());
        let r = rooms.last();
        if t.rooms.contains_key(r) {
            let room = t.rooms[r];
            if room.downgrade_deadline is Some {
                let d = room.downgrade_deadline->0;
                assert(t.is_downgrade_deadline(r, d));
                assert(t.is_deadline(d));
            }
            lemma_expired_clients(room, now);
            let expired = room.expired_clients(now);
            if room.watches_members() {
                assert forall|c: u64| #[trigger] room.has(c) implies !room.members[c].expired(
                    now,
                ) by {
                    if room.members[c].reconnect_deadline is Some {
                        let d = room.members[c].reconnect_deadline->0;
                        assert(t.is_reconnect_deadline(r, c, d));
                        assert(t.is_deadline(d));
                    }
                }
                if expired.len() > 0 {
                    assert(expired.contains(expired[0]));
                    assert(room.has(expired[0]));
                }
            }
            if room.mode == RoomMode::P2p {
                assert forall|c: u64|
                    room.members.dom().contains(c) implies room.without_expired(
                    now,
                ).members.dom().contains(c) by {
                    assert(room.has(c));
                }
                assert(room.without_expired(now).members =~= room.members);
                assert(t.rooms.insert(r, room) =~= t.rooms);
            }
        }
    }
}

/// Those whose grace is over are members.
pub proof fn lemma_expired_clients(room: Room, now: Instant)
    requires
        room.members.dom().finite(),
    ensures
        forall|c: u64| #[trigger]
            room.expired_clients(now).contains(c) <==> room.has(c) && room.members[c].expired(now),
{
    ord_map::lemma_in_order::<u64>(room.members.dom());
    seqs::lemma_filter_contains(room.clients(), |c: u64| room.members[c].expired(now));
    assert forall|c: u64| #[trigger] room.expired_clients(now).contains(c) <==> room.has(c)
        && room.members[c].expired(now) by {
        assert(room.clients().contains(c) <==> room.members.dom().contains(c));
    }
}

// Direct rooms

/// A member of a direct room that did not come back in time is out of it, and those
/// that are connected or still have time stay.
pub proof fn law_late_members_are_removed(t: Table, now: Instant, room_id: u64, client_id: u64)
    requires
        t.inv(),
        t.spares(now, room_id),
        t.is_member(room_id, client_id),
        t.rooms[room_id].mode == RoomMode::P2p,
    ensures
        t.handle_timeout(now).0.is_member(room_id, client_id) <==> !t.rooms[room_id].members[
            client_id
        ].expired(now),
        t.rooms[room_id].members[client_id].registered ==> t.handle_timeout(now).0.is_member(
            room_id,
            client_id,
        ),
{
    lemma_timeout_at(t, now, room_id);
    lemma_direct_sweep(t, now, room_id);
    let room = t.rooms[room_id];
    assert(t.sweep_room(now, room_id).0.is_member(room_id, client_id) <==> room.has(client_id)
        && !room.members[client_id].expired(now));
    assert(room.members.contains_key(client_id));
}

/// The direct room after a sweep.
proof fn lemma_direct_sweep(t: Table, now: Instant, room_id: u64)
    requires
        t.inv(),
        t.rooms.contains_key(room_id),
        t.rooms[room_id].mode == RoomMode::P2p,
    ensures
        ({
            let room = t.rooms[room_id];
            let left = room.without_expired(now);
            let (u, promotion) = t.sweep_room(now, room_id);
            &&& left.members.dom().finite()
            &&& u.rooms.contains_key(room_id) <==> left.members.dom().len() > 0
            &&& u.rooms.contains_key(room_id) ==> {
                &&& u.rooms[room_id].mode == RoomMode::P2p
                &&& u.rooms[room_id].members.dom() == left.members.dom()
                &&& u.rooms[room_id].signal_epoch == room.signal_epoch
            }
            &&& forall|c: u64| #[trigger]
                u.is_member(room_id, c) <==> room.has(c) && !room.members[c].expired(now)
            &&& promotion is Some ==> {
                &&& room.expired_clients(now).len() > 0
                &&& promotion == left.promotion(room_id)
                &&& u.rooms.contains_key(room_id)
                &&& u.rooms[room_id] == left.promoted()
            }
        }),
{
    let room = t.rooms[room_id];
    let left = room.without_expired(now);
    vstd::set_lib::lemma_len_subset(left.members.dom(), room.members.dom());
    let u = t.sweep_room(now, room_id).0;
    ord_map::lemma_in_order::<u64>(left.members.dom());
    if left.has_survivor() {
        let c = left.clients()[0];
        assert(left.clients().contains(c));
        assert(left.members.dom().contains(c));
        assert(left.promoted().members.dom() =~= left.members.dom());
    }
    assert forall|c: u64| #[trigger] u.is_member(room_id, c) <==> room.has(c)
        && !room.members[c].expired(now) by {
        assert(left.members.dom().contains(c) <==> room.has(c) && !room.members[c].expired(now));
        if left.members.dom().len() == 0 {
            assert(!left.members.dom().contains(c));
        }
    }
}

/// Time promotes a client only where it removed another member of the room: the one
/// that is left of a direct room, connected, offers from then on.
pub proof fn law_promotion_follows_removal(t: Table, now: Instant, p: Promotion)
    requires
        t.inv(),
        t.handle_timeout(now).1.contains(p),
    ensures
        ({
            let room = t.rooms[p.room_id];
            let u = t.handle_timeout(now).0;
            let after = u.rooms[p.room_id];
            &&& t.rooms.contains_key(p.room_id)
            &&& exists|c: u64| #[trigger]
                room.has(c) && c != p.client_id && room.members[c].expired(now)
            &&& room.has(p.client_id) && room.members[p.client_id].registered
            &&& u.rooms.contains_key(p.room_id)
            &&& after.mode == RoomMode::P2p
            &&& after.members.dom() == set![p.client_id]
            &&& after.members[p.client_id].is_initiator
            &&& after.signal_epoch == p.signal_epoch
        }),
{
    let gone = t.expired_workers(now);
    let u = t.expire_workers(gone);
    crate::v2::invariants::lemma_expire_workers(t, gone);
    lemma_expire_workers_members(t, gone);
    progress::lemma_expire_workers(t, gone);
    let rooms = ord_map::in_order::<u64>(u.rooms.dom());
    ord_map::lemma_in_order::<u64>(u.rooms.dom());
    ord_map::lemma_ascending_no_duplicates::<u64>(rooms);
    lemma_sweep_promotions(u, now, rooms, p);
    let r = p.room_id;
    lemma_sweep_rooms_at(u, now, rooms, r);
    let room = u.rooms[r];
    assert(u.rooms.dom().contains(r));
    lemma_direct_sweep(u, now, r);
    let left = room.without_expired(now);
    ord_map::lemma_in_order::<u64>(left.members.dom());
    assert(left.clients().contains(left.clients()[0]));
    assert(left.members.dom().contains(p.client_id));
    assert forall|c: u64| left.members.dom().contains(c) implies c == p.client_id by {
        let k = choose|k: int| 0 <= k < left.clients().len() && left.clients()[k] == c;
        assert(left.clients().contains(c));
    }
    assert(left.members.dom() =~= set![p.client_id]);
    lemma_expired_clients(room, now);
    let c = room.expired_clients(now)[0];
    assert(room.expired_clients(now).contains(c));
    assert(room.has(c) && room.members[c].expired(now));
    assert(u.is_member(r, c));
    assert(u.is_member(r, p.client_id));
    assert(t.rooms[r].has(c));
}

/// A room that no late worker has and that runs on a worker is not promoted in by the
/// clock.
pub proof fn lemma_promotion_of_direct(t: Table, now: Instant, p: Promotion)
    requires
        t.inv(),
        t.spares(now, p.room_id),
        t.handle_timeout(now).1.contains(p),
        t.rooms.contains_key(p.room_id),
    ensures
        t.rooms[p.room_id].mode == RoomMode::P2p,
{
    let gone = t.expired_workers(now);
    let u = t.expire_workers(gone);
    ord_map::lemma_in_order::<String>(t.workers.dom());
    seqs::lemma_filter_contains(
        ord_map::in_order::<String>(t.workers.dom()),
        |i: Text| model::reached(t.workers[i].disconnect_deadline, now),
    );
    lemma_expire_workers_elsewhere(t, gone, p.room_id);
    progress::lemma_expire_workers(t, gone);
    vstd::set_lib::lemma_len_subset(u.rooms.dom(), t.rooms.dom());
    let rooms = ord_map::in_order::<u64>(u.rooms.dom());
    ord_map::lemma_in_order::<u64>(u.rooms.dom());
    ord_map::lemma_ascending_no_duplicates::<u64>(rooms);
    lemma_sweep_promotions(u, now, rooms, p);
}

/// What the clock promotes in a room that no late worker has is what a sweep of the room
/// promotes.
pub proof fn lemma_promotions_of(t: Table, now: Instant, room_id: u64)
    requires
        t.inv(),
        t.spares(now, room_id),
        t.rooms.contains_key(room_id),
    ensures
        forall|p: Promotion|
            p.room_id == room_id ==> (#[trigger] t.handle_timeout(now).1.contains(p)
                <==> t.sweep_room(now, room_id).1 == Some(p)),
{
    let gone = t.expired_workers(now);
    let u = t.expire_workers(gone);
    ord_map::lemma_in_order::<String>(t.workers.dom());
    seqs::lemma_filter_contains(
        ord_map::in_order::<String>(t.workers.dom()),
        |i: Text| model::reached(t.workers[i].disconnect_deadline, now),
    );
    lemma_expire_workers_elsewhere(t, gone, room_id);
    progress::lemma_expire_workers(t, gone);
    vstd::set_lib::lemma_len_subset(u.rooms.dom(), t.rooms.dom());
    let rooms = ord_map::in_order::<u64>(u.rooms.dom());
    ord_map::lemma_in_order::<u64>(u.rooms.dom());
    ord_map::lemma_ascending_no_duplicates::<u64>(rooms);
    lemma_sweep_room_alike(t, u, now, room_id);
    assert(u.rooms.dom().contains(room_id));
    assert forall|p: Promotion| p.room_id == room_id implies (#[trigger] t.handle_timeout(
        now,
    ).1.contains(p) <==> t.sweep_room(now, room_id).1 == Some(p)) by {
        if t.handle_timeout(now).1.contains(p) {
            lemma_sweep_promotions(u, now, rooms, p);
        }
        if t.sweep_room(now, room_id).1 == Some(p) {
            lemma_sweeps_promote(u, now, rooms, room_id, p);
        }
    }
}

proof fn lemma_sweeps_promote(t: Table, now: Instant, rooms: Seq<u64>, room_id: u64, p: Promotion)
    requires
        rooms.no_duplicates(),
        rooms.contains(room_id),
        t.sweep_room(now, room_id).1 == Some(p),
    ensures
        t.sweep_rooms(now, rooms).1.contains(p),
    decreases rooms.len(),
{
    let front = rooms.drop_last();
    let r = rooms.last();
    let (u, promotions) = t.sweep_rooms(now, front);
    let all = t.sweep_rooms(now, rooms).1;
    assert(rooms[rooms.len() - 1] == r);
    lemma_sweep_rooms_at(t, now, front, room_id);
    if r == room_id {
        assert(!front.contains(room_id)) by {
            if front.contains(room_id) {
                let k = choose|k: int| 0 <= k < front.len() && front[k] == room_id;
                assert(rooms[k] == room_id);
            }
        }
        lemma_sweep_room_alike(t, u, now, r);
        assert(all[promotions.len() as int] == p);
    } else {
        let k = choose|k: int| 0 <= k < rooms.len() && rooms[k] == room_id;
        assert(front[k] == room_id);
        lemma_sweeps_promote(t, now, front, room_id, p);
        let j = choose|j: int| 0 <= j < promotions.len() && promotions[j] == p;
        assert(all[j] == p);
    }
}

/// The clock promotes at most one client of each room.
pub proof fn lemma_promotions_are_single(t: Table, now: Instant)
    requires
        t.inv(),
    ensures
        forall|i: int, j: int|
            0 <= i < j < t.handle_timeout(now).1.len() ==> (#[trigger] t.handle_timeout(
                now,
            ).1[i]).room_id != (#[trigger] t.handle_timeout(now).1[j]).room_id,
{
    let gone = t.expired_workers(now);
    let u = t.expire_workers(gone);
    progress::lemma_expire_workers(t, gone);
    vstd::set_lib::lemma_len_subset(u.rooms.dom(), t.rooms.dom());
    let rooms = ord_map::in_order::<u64>(u.rooms.dom());
    ord_map::lemma_in_order::<u64>(u.rooms.dom());
    ord_map::lemma_ascending_no_duplicates::<u64>(rooms);
    lemma_sweeps_promote_once(u, now, rooms);
}

proof fn lemma_sweeps_promote_once(t: Table, now: Instant, rooms: Seq<u64>)
    requires
        rooms.no_duplicates(),
    ensures
        forall|i: int, j: int|
            0 <= i < j < t.sweep_rooms(now, rooms).1.len() ==> (#[trigger] t.sweep_rooms(
                now,
                rooms,
            ).1[i]).room_id != (#[trigger] t.sweep_rooms(now, rooms).1[j]).room_id,
        forall|i: int|
            0 <= i < t.sweep_rooms(now, rooms).1.len() ==> rooms.contains(
                (#[trigger] t.sweep_rooms(now, rooms).1[i]).room_id,
            ),
    decreases rooms.len(),
{
    if rooms.len() > 0 {
        let front = rooms.drop_last();
        let r = rooms.last();
        lemma_sweeps_promote_once(t, now, front);
        let (u, before) = t.sweep_rooms(now, front);
        let all = t.sweep_rooms(now, rooms).1;
        assert(rooms[rooms.len() - 1] == r);
        assert(!front.contains(r)) by {
            if front.contains(r) {
                let k = choose|k: int| 0 <= k < front.len() && front[k] == r;
                assert(rooms[k] == r);
            }
        }
        assert forall|i: int| 0 <= i < all.len() implies rooms.contains(
            (#[trigger] all[i]).room_id,
        ) && (i < before.len() ==> all[i] == before[i] && all[i].room_id != r) && (i
            >= before.len() ==> all[i].room_id == r) by {
            if i < before.len() {
                let k = choose|k: int| 0 <= k < front.len() && front[k] == before[i].room_id;
                assert(rooms[k] == before[i].room_id);
            } else {
                assert(rooms.contains(r));
            }
        }
        assert forall|i: int, j: int| 0 <= i < j < all.len() implies (#[trigger] all[i]).room_id != (
        #[trigger] all[j]).room_id by {
            if j < before.len() {
                assert(before[i].room_id != before[j].room_id);
            }
        }
    }
}

/// A promotion comes from a sweep of its own room.
proof fn lemma_sweep_promotions(t: Table, now: Instant, rooms: Seq<u64>, p: Promotion)
    requires
        rooms.no_duplicates(),
        t.sweep_rooms(now, rooms).1.contains(p),
    ensures
        rooms.contains(p.room_id),
        t.sweep_room(now, p.room_id).1 == Some(p),
    decreases rooms.len(),
{
    if rooms.len() > 0 {
        let front = rooms.drop_last();
        let r = rooms.last();
        let (u, promotions) = t.sweep_rooms(now, front);
        assert(rooms[rooms.len() - 1] == r);
        if promotions.contains(p) {
            lemma_sweep_promotions(t, now, front, p);
            let k = choose|k: int| 0 <= k < front.len() && front[k] == p.room_id;
            assert(rooms[k] == p.room_id);
        } else {
            let all = t.sweep_rooms(now, rooms).1;
            let k = choose|k: int| 0 <= k < all.len() && all[k] == p;
            if k < promotions.len() {
                assert(promotions[k] == p);
            }
            assert(u.sweep_room(now, r).1 == Some(p));
            assert(p.room_id == r);
            lemma_sweep_rooms_at(t, now, front, r);
            lemma_sweep_room_alike(t, u, now, r);
        }
    }
}

/// The loss of workers brings no member into a room and changes none.
proof fn lemma_expire_workers_members(t: Table, instances: Seq<Text>)
    ensures
        forall|r: u64, c: u64| #[trigger]
            t.expire_workers(instances).is_member(r, c) ==> t.is_member(r, c)
                && t.expire_workers(instances).rooms[r].members[c] == t.rooms[r].members[c],
    decreases instances.len(),
{
    if instances.len() > 0 {
        let front = instances.drop_last();
        lemma_expire_workers_members(t, front);
        let u = t.expire_workers(front);
        let i = instances.last();
        let rooms = if u.workers.contains_key(i) {
            ord_map::in_order::<u64>(u.workers[i].assigned_rooms)
        } else {
            Seq::empty()
        };
        lemma_lose_rooms_members(u, rooms);
        let v = u.expire_worker(i);
        assert(v.rooms == u.lose_rooms(rooms).rooms);
        assert forall|r: u64, c: u64| #[trigger] v.is_member(r, c) implies t.is_member(r, c)
            && v.rooms[r].members[c] == t.rooms[r].members[c] by {
            assert(u.lose_rooms(rooms).is_member(r, c));
            assert(u.is_member(r, c));
        }
    }
}

proof fn lemma_lose_rooms_members(t: Table, rooms: Seq<u64>)
    ensures
        forall|r: u64, c: u64| #[trigger]
            t.lose_rooms(rooms).is_member(r, c) ==> t.is_member(r, c) && t.lose_rooms(
                rooms,
            ).rooms[r].members[c] == t.rooms[r].members[c],
    decreases rooms.len(),
{
    if rooms.len() > 0 {
        let front = rooms.drop_last();
        lemma_lose_rooms_members(t, front);
        let u = t.lose_rooms(front);
        upgrades::lemma_abort_upgrade_rooms(u, rooms.last(), "WORKER_UNAVAILABLE"@);
        let v = u.lose_room(rooms.last());
        assert forall|r: u64, c: u64| #[trigger] v.is_member(r, c) implies t.is_member(r, c)
            && v.rooms[r].members[c] == t.rooms[r].members[c] by {
            assert(u.is_member(r, c));
        }
    }
}

// Workers

/// Those that are told that their room has failed: its members but for one that was
/// still waiting to join.
pub open spec fn told_of_failure(room: Room) -> Seq<u64> {
    match room.pending_join {
        Some(join) => room.without_member(join.client_id).clients(),
        None => room.clients(),
    }
}

/// A room on a worker that did not come back in time has failed, and its members are told.
/// A client that was still waiting to join is refused and out of the room, and whoever
/// waited for a leave is told that it did not happen; the others stay as they were.
pub proof fn law_lost_worker_fails_its_rooms(t: Table, now: Instant, instance_id: Text, room_id: u64)
    requires
        t.inv(),
        t.workers.contains_key(instance_id),
        model::reached(t.workers[instance_id].disconnect_deadline, now),
        t.runs_on_worker(room_id),
        t.rooms[room_id].assigned_instance == Some(instance_id)
            || t.workers[instance_id].assigned_rooms.contains(room_id),
    ensures
        t.handle_timeout(now).0.rooms.contains_key(room_id),
        t.handle_timeout(now).0.rooms[room_id].mode == RoomMode::Failed,
        t.handle_timeout(now).0.actions.contains(
            ActionView::RoomFailed {
                room_id,
                clients: told_of_failure(t.rooms[room_id]),
                reason: "WORKER_UNAVAILABLE"@,
            },
        ),
        ({
            let room = t.rooms[room_id];
            let u = t.handle_timeout(now).0;
            let after = u.rooms[room_id];
            &&& after.pending_join is None
            &&& after.pending_leave is None
            &&& after.signal_epoch == room.signal_epoch
            &&& after.members == match room.pending_join {
                Some(join) => room.members.remove(join.client_id),
                None => room.members,
            }
            &&& room.pending_join matches Some(join) ==> u.actions.contains(
                ActionView::AdmissionCompleted {
                    authority_request_id: join.authority_request_id,
                    result: Err("WORKER_UNAVAILABLE"@),
                },
            )
            &&& room.pending_leave matches Some(leave) ==> (leave.authority_request_id matches Some(
                id,
            ) ==> u.actions.contains(
                ActionView::RemovalCompleted {
                    authority_request_id: id,
                    room_id,
                    client_id: leave.client_id,
                    result: Err("WORKER_UNAVAILABLE"@),
                },
            ))
        }),
{
    let room = t.rooms[room_id];
    assert(t.seats(room_id, room));
    let names = ord_map::in_order::<String>(t.workers.dom());
    ord_map::lemma_in_order::<String>(t.workers.dom());
    assert(t.workers.dom().contains(instance_id));
    assert(names.contains(instance_id));
    seqs::lemma_filter_contains(
        names,
        |i: Text| model::reached(t.workers[i].disconnect_deadline, now),
    );
    let gone = t.expired_workers(now);
    assert(gone.contains(instance_id));
    lemma_expire_workers_fail(t, gone, instance_id, room_id, room);
    let u = t.expire_workers(gone);
    let rooms = ord_map::in_order::<u64>(u.rooms.dom());
    lemma_sweep_rooms_failed(u, now, rooms, room_id, room);
    progress::lemma_sweep_rooms(u, now, rooms);
    let v = t.handle_timeout(now).0;
    lemma_still_contains(u.actions, v.actions, news_of_failure(room_id, room));
    if room.pending_join is Some {
        lemma_still_contains(u.actions, v.actions, refused_join(room));
    }
    if room.pending_leave is Some && room.pending_leave->0.authority_request_id is Some {
        lemma_still_contains(u.actions, v.actions, refused_leave(room_id, room));
    }
}

/// The answer to a client that waited to join.
spec fn refused_join(room: Room) -> ActionView {
    ActionView::AdmissionCompleted {
        authority_request_id: room.pending_join->0.authority_request_id,
        result: Err("WORKER_UNAVAILABLE"@),
    }
}

/// The answer to whoever waited for a leave.
spec fn refused_leave(room_id: u64, room: Room) -> ActionView {
    ActionView::RemovalCompleted {
        authority_request_id: room.pending_leave->0.authority_request_id->0,
        room_id,
        client_id: room.pending_leave->0.client_id,
        result: Err("WORKER_UNAVAILABLE"@),
    }
}

spec fn news_of_failure(room_id: u64, room: Room) -> ActionView {
    ActionView::RoomFailed {
        room_id,
        clients: told_of_failure(room),
        reason: "WORKER_UNAVAILABLE"@,
    }
}

proof fn lemma_still_contains(a: Seq<ActionView>, b: Seq<ActionView>, x: ActionView)
    requires
        a.is_prefix_of(b),
        a.contains(x),
    ensures
        b.contains(x),
{
    let k = choose|k: int| 0 <= k < a.len() && a[k] == x;
    assert(b[k] == x);
}

/// The room, which ran as `room`, has failed, and its members are to be told.
spec fn has_failed(t: Table, room_id: u64, room: Room) -> bool {
    &&& is_failed(t, room_id, room)
    &&& t.actions.contains(news_of_failure(room_id, room))
    &&& room.pending_join is Some ==> t.actions.contains(refused_join(room))
    &&& room.pending_leave is Some && room.pending_leave->0.authority_request_id is Some
        ==> t.actions.contains(refused_leave(room_id, room))
}

/// The room, which ran as `room`, has failed with those that were in it for good.
spec fn is_failed(t: Table, room_id: u64, room: Room) -> bool {
    let after = t.rooms[room_id];
    &&& t.rooms.contains_key(room_id)
    &&& after.mode == RoomMode::Failed
    &&& after.pending_join is None
    &&& after.pending_leave is None
    &&& after.signal_epoch == room.signal_epoch
    &&& after.members == match room.pending_join {
        Some(join) => room.members.remove(join.client_id),
        None => room.members,
    }
}

/// The room runs, as `room`, on a worker that still has it.
spec fn is_held(t: Table, instance_id: Text, room_id: u64, room: Room) -> bool {
    &&& t.runs_on_worker(room_id)
    &&& t.rooms[room_id] == room
    &&& t.workers.contains_key(instance_id)
    &&& t.workers[instance_id].assigned_rooms.contains(room_id)
    &&& t.workers[instance_id].assigned_rooms.finite()
}

proof fn lemma_lose_room_fails(t: Table, r: u64, instance_id: Text, room_id: u64, room: Room)
    requires
        is_held(t, instance_id, room_id, room) || has_failed(t, room_id, room),
    ensures
        is_held(t.lose_room(r), instance_id, room_id, room) || has_failed(
            t.lose_room(r),
            room_id,
            room,
        ),
        r == room_id || has_failed(t, room_id, room) ==> has_failed(t.lose_room(r), room_id, room),
{
    let u = t.lose_room(r);
    upgrades::lemma_abort_upgrade_rooms(t, r, "WORKER_UNAVAILABLE"@);
    progress::lemma_lose_room(t, r);
    if has_failed(t, room_id, room) {
        lemma_still_contains(t.actions, u.actions, news_of_failure(room_id, room));
        if room.pending_join is Some {
            lemma_still_contains(t.actions, u.actions, refused_join(room));
        }
        if room.pending_leave is Some && room.pending_leave->0.authority_request_id is Some {
            lemma_still_contains(t.actions, u.actions, refused_leave(room_id, room));
        }
    } else if r == room_id {
        assert(u.actions[u.actions.len() - 1] == news_of_failure(room_id, room));
        let n = t.actions.len() as int;
        if room.pending_join is Some {
            assert(u.actions[n] == refused_join(room));
            if room.pending_leave is Some && room.pending_leave->0.authority_request_id is Some {
                assert(u.actions[n + 1] == refused_leave(room_id, room));
            }
        } else if room.pending_leave is Some && room.pending_leave->0.authority_request_id is Some {
            assert(u.actions[n] == refused_leave(room_id, room));
        }
    }
}

proof fn lemma_lose_rooms_fail(
    t: Table,
    rooms: Seq<u64>,
    instance_id: Text,
    room_id: u64,
    room: Room,
)
    requires
        is_held(t, instance_id, room_id, room) || has_failed(t, room_id, room),
    ensures
        is_held(t.lose_rooms(rooms), instance_id, room_id, room) || has_failed(
            t.lose_rooms(rooms),
            room_id,
            room,
        ),
        rooms.contains(room_id) || has_failed(t, room_id, room) ==> has_failed(
            t.lose_rooms(rooms),
            room_id,
            room,
        ),
    decreases rooms.len(),
{
    if rooms.len() > 0 {
        let front = rooms.drop_last();
        lemma_lose_rooms_fail(t, front, instance_id, room_id, room);
        let u = t.lose_rooms(front);
        lemma_lose_room_fails(u, rooms.last(), instance_id, room_id, room);
        if rooms.contains(room_id) && rooms.last() != room_id {
            let k = choose|k: int| 0 <= k < rooms.len() && rooms[k] == room_id;
            assert(front[k] == room_id);
        }
    }
}

proof fn lemma_expire_workers_fail(
    t: Table,
    instances: Seq<Text>,
    instance_id: Text,
    room_id: u64,
    room: Room,
)
    requires
        is_held(t, instance_id, room_id, room),
    ensures
        is_held(t.expire_workers(instances), instance_id, room_id, room) || has_failed(
            t.expire_workers(instances),
            room_id,
            room,
        ),
        instances.contains(instance_id) ==> has_failed(
            t.expire_workers(instances),
            room_id,
            room,
        ),
    decreases instances.len(),
{
    if instances.len() > 0 {
        let front = instances.drop_last();
        lemma_expire_workers_fail(t, front, instance_id, room_id, room);
        let u = t.expire_workers(front);
        let i = instances.last();
        if instances.contains(instance_id) && i != instance_id {
            let k = choose|k: int| 0 <= k < instances.len() && instances[k] == instance_id;
            assert(front[k] == instance_id);
        }
        let rooms = if u.workers.contains_key(i) {
            ord_map::in_order::<u64>(u.workers[i].assigned_rooms)
        } else {
            Seq::empty()
        };
        lemma_lose_rooms_fail(u, rooms, instance_id, room_id, room);
        if i == instance_id && is_held(u, instance_id, room_id, room) {
            ord_map::lemma_in_order::<u64>(u.workers[i].assigned_rooms);
            assert(rooms.contains(room_id));
        }
        let v = u.lose_rooms(rooms);
        let w = u.expire_worker(i);
        assert(w.actions == v.actions);
        assert(w.rooms == v.rooms);
    }
}

proof fn lemma_sweep_rooms_failed(
    t: Table,
    now: Instant,
    rooms: Seq<u64>,
    room_id: u64,
    room: Room,
)
    requires
        is_failed(t, room_id, room),
    ensures
        is_failed(t.sweep_rooms(now, rooms).0, room_id, room),
    decreases rooms.len(),
{
    if rooms.len() > 0 {
        lemma_sweep_rooms_failed(t, now, rooms.drop_last(), room_id, room);
        let u = t.sweep_rooms(now, rooms.drop_last()).0;
        lemma_sweep_room_elsewhere(u, now, rooms.last(), room_id);
    }
}

/// A room that was still moving to a worker that did not come back in time is direct
/// again, without the client that was to join, which is refused. No other worker that is
/// late may have the room: one on which a room failed keeps its number after the room was
/// emptied, and takes a later room with that number along when it is lost.
pub proof fn law_lost_worker_ends_the_upgrade(
    t: Table,
    now: Instant,
    instance_id: Text,
    room_id: u64,
)
    requires
        t.inv(),
        t.workers.contains_key(instance_id),
        model::reached(t.workers[instance_id].disconnect_deadline, now),
        t.rooms.contains_key(room_id),
        t.rooms[room_id].mode == RoomMode::Upgrading,
        t.rooms[room_id].assigned_instance == Some(instance_id),
        forall|i: Text| #[trigger]
            t.workers.contains_key(i) && i != instance_id && model::reached(
                t.workers[i].disconnect_deadline,
                now,
            ) ==> !t.workers[i].assigned_rooms.contains(room_id),
    ensures
        ({
            let upgrade = t.rooms[room_id].upgrade->0;
            let u = t.handle_timeout(now).0;
            &&& !u.is_member(room_id, upgrade.joining_client_id)
            &&& u.rooms.contains_key(room_id) ==> u.rooms[room_id].mode == RoomMode::P2p
            &&& u.actions.contains(refusal(upgrade))
        }),
{
    let upgrade = t.rooms[room_id].upgrade->0;
    assert(t.seats(room_id, t.rooms[room_id]));
    let names = ord_map::in_order::<String>(t.workers.dom());
    let late = |i: Text| model::reached(t.workers[i].disconnect_deadline, now);
    ord_map::lemma_in_order::<String>(t.workers.dom());
    ord_map::lemma_ascending_no_duplicates::<String>(names);
    assert(t.workers.dom().contains(instance_id));
    assert(names.contains(instance_id));
    seqs::lemma_filter_contains(names, late);
    seqs::lemma_filter_no_duplicates(names, late);
    let gone = t.expired_workers(now);
    assert(gone.contains(instance_id));
    lemma_expire_workers_end(t, gone, instance_id, room_id, upgrade);
    let u = t.expire_workers(gone);
    let rooms = ord_map::in_order::<u64>(u.rooms.dom());
    crate::v2::invariants::lemma_expire_workers(t, gone);
    lemma_sweep_rooms_ended(u, now, rooms, room_id, upgrade);
}

/// The answer to a client whose upgrade lost its worker.
pub open spec fn refusal(upgrade: Upgrade) -> ActionView {
    ActionView::AdmissionCompleted {
        authority_request_id: upgrade.authority_request_id,
        result: Err("WORKER_UNAVAILABLE"@),
    }
}

/// The room is moving to a worker that is gone.
spec fn is_moving(t: Table, instance_id: Text, room_id: u64, upgrade: Upgrade) -> bool {
    &&& t.rooms.contains_key(room_id)
    &&& t.rooms[room_id].mode == RoomMode::Upgrading
    &&& t.rooms[room_id].upgrade == Some(upgrade)
    &&& t.rooms[room_id].assigned_instance == Some(instance_id)
    &&& t.workers.contains_key(instance_id)
    &&& t.workers[instance_id].connection_id is None
}

/// The upgrade has ended without its client.
spec fn has_ended(t: Table, room_id: u64, upgrade: Upgrade) -> bool {
    &&& !t.is_member(room_id, upgrade.joining_client_id)
    &&& t.rooms.contains_key(room_id) ==> t.rooms[room_id].mode == RoomMode::P2p
    &&& t.actions.contains(refusal(upgrade))
}

proof fn lemma_lose_rooms_end(
    t: Table,
    rooms: Seq<u64>,
    instance_id: Text,
    room_id: u64,
    upgrade: Upgrade,
)
    requires
        rooms.no_duplicates(),
        is_moving(t, instance_id, room_id, upgrade) || has_ended(t, room_id, upgrade)
            && !rooms.contains(room_id),
    ensures
        rooms.contains(room_id) || has_ended(t, room_id, upgrade) ==> has_ended(
            t.lose_rooms(rooms),
            room_id,
            upgrade,
        ),
        !rooms.contains(room_id) && is_moving(t, instance_id, room_id, upgrade) ==> is_moving(
            t.lose_rooms(rooms),
            instance_id,
            room_id,
            upgrade,
        ),
    decreases rooms.len(),
{
    if rooms.len() > 0 {
        let front = rooms.drop_last();
        let r = rooms.last();
        assert(rooms[rooms.len() - 1] == r);
        assert(front.contains(room_id) ==> rooms.contains(room_id)) by {
            if front.contains(room_id) {
                let k = choose|k: int| 0 <= k < front.len() && front[k] == room_id;
                assert(rooms[k] == room_id);
            }
        }
        lemma_lose_rooms_end(t, front, instance_id, room_id, upgrade);
        let u = t.lose_rooms(front);
        let v = u.lose_room(r);
        upgrades::lemma_abort_upgrade_rooms(u, r, "WORKER_UNAVAILABLE"@);
        progress::lemma_lose_room(u, r);
        if r == room_id {
            assert(!front.contains(room_id));
            reveal_strlit("WORKER_UNAVAILABLE");
            assert(v.actions.last() == refusal(upgrade));
            assert(v.actions[v.actions.len() - 1] == refusal(upgrade));
        } else {
            if rooms.contains(room_id) {
                let k = choose|k: int| 0 <= k < rooms.len() && rooms[k] == room_id;
                assert(front[k] == room_id);
            }
            if has_ended(u, room_id, upgrade) {
                lemma_still_contains(u.actions, v.actions, refusal(upgrade));
            }
        }
    }
}

proof fn lemma_expire_workers_end(
    t: Table,
    instances: Seq<Text>,
    instance_id: Text,
    room_id: u64,
    upgrade: Upgrade,
)
    requires
        instances.no_duplicates(),
        is_moving(t, instance_id, room_id, upgrade),
        t.workers[instance_id].assigned_rooms.contains(room_id),
        forall|i: Text| #[trigger]
            t.workers.contains_key(i) ==> t.workers[i].assigned_rooms.finite(),
        forall|i: Text| #[trigger]
            instances.contains(i) && t.workers.contains_key(i) && i != instance_id
                ==> !t.workers[i].assigned_rooms.contains(room_id),
    ensures
        t.keeps_workers(t.expire_workers(instances)),
        instances.contains(instance_id) ==> has_ended(
            t.expire_workers(instances),
            room_id,
            upgrade,
        ),
        !instances.contains(instance_id) ==> {
            let u = t.expire_workers(instances);
            &&& is_moving(u, instance_id, room_id, upgrade)
            &&& u.workers[instance_id].assigned_rooms.contains(room_id)
        },
    decreases instances.len(),
{
    if instances.len() > 0 {
        let front = instances.drop_last();
        let i = instances.last();
        assert(instances[instances.len() - 1] == i);
        assert forall|j: Text| #[trigger] front.contains(j) implies instances.contains(j) by {
            let k = choose|k: int| 0 <= k < front.len() && front[k] == j;
            assert(instances[k] == j);
        }
        assert(instances.contains(i));
        lemma_expire_workers_end(t, front, instance_id, room_id, upgrade);
        let u = t.expire_workers(front);
        let rooms = if u.workers.contains_key(i) {
            ord_map::in_order::<u64>(u.workers[i].assigned_rooms)
        } else {
            Seq::empty()
        };
        if u.workers.contains_key(i) {
            assert(t.workers.contains_key(i));
            vstd::set_lib::lemma_len_subset(
                u.workers[i].assigned_rooms,
                t.workers[i].assigned_rooms,
            );
            ord_map::lemma_in_order::<u64>(u.workers[i].assigned_rooms);
            ord_map::lemma_ascending_no_duplicates::<u64>(rooms);
            assert(rooms.contains(room_id) <==> u.workers[i].assigned_rooms.contains(room_id));
        }
        if i == instance_id {
            assert(!front.contains(instance_id));
        } else {
            assert(!rooms.contains(room_id));
            if instances.contains(instance_id) {
                let k = choose|k: int| 0 <= k < instances.len() && instances[k] == instance_id;
                assert(front[k] == instance_id);
            }
            if front.contains(instance_id) {
                let k = choose|k: int| 0 <= k < front.len() && front[k] == instance_id;
                assert(instances[k] == instance_id);
            }
        }
        lemma_lose_rooms_end(u, rooms, instance_id, room_id, upgrade);
        lemma_lose_rooms_elsewhere(u, rooms, room_id);
        if !front.contains(instance_id) {
            lemma_lose_rooms_keep(u, rooms, instance_id, room_id);
        }
        let v = u.lose_rooms(rooms);
        let w = u.expire_worker(i);
        assert(w.actions == v.actions);
        assert(w.rooms == v.rooms);
        assert(w.workers.dom() =~= t.workers.dom());
        assert forall|j: Text| #[trigger] t.workers.contains_key(j) implies {
            &&& w.workers[j].assigned_rooms.subset_of(t.workers[j].assigned_rooms)
            &&& w.workers[j].assigned_clients <= t.workers[j].assigned_clients
            &&& w.workers[j].connection_id == t.workers[j].connection_id
            &&& w.workers[j].disconnect_deadline is None || w.workers[j].disconnect_deadline
                == t.workers[j].disconnect_deadline
        } by {
            assert(u.workers.contains_key(j));
            assert(v.workers.dom().contains(j));
        }
    }
}

/// A worker keeps a room that is not among those that are lost.
proof fn lemma_lose_rooms_keep(t: Table, rooms: Seq<u64>, instance_id: Text, room_id: u64)
    requires
        t.workers.contains_key(instance_id),
        t.workers[instance_id].assigned_rooms.contains(room_id),
    ensures
        t.lose_rooms(rooms).workers.contains_key(instance_id),
        !rooms.contains(room_id) ==> t.lose_rooms(rooms).workers[
            instance_id
        ].assigned_rooms.contains(room_id),
    decreases rooms.len(),
{
    if rooms.len() > 0 {
        let front = rooms.drop_last();
        lemma_lose_rooms_keep(t, front, instance_id, room_id);
        if front.contains(room_id) {
            let k = choose|k: int| 0 <= k < front.len() && front[k] == room_id;
            assert(rooms[k] == room_id);
        }
        let u = t.lose_rooms(front);
        assert(rooms[rooms.len() - 1] == rooms.last());
        upgrades::lemma_abort_upgrade_rooms(u, rooms.last(), "WORKER_UNAVAILABLE"@);
    }
}

proof fn lemma_sweep_rooms_ended(
    t: Table,
    now: Instant,
    rooms: Seq<u64>,
    room_id: u64,
    upgrade: Upgrade,
)
    requires
        t.inv(),
        has_ended(t, room_id, upgrade),
    ensures
        has_ended(t.sweep_rooms(now, rooms).0, room_id, upgrade),
        t.sweep_rooms(now, rooms).0.inv(),
    decreases rooms.len(),
{
    if rooms.len() > 0 {
        let front = rooms.drop_last();
        let r = rooms.last();
        lemma_sweep_rooms_ended(t, now, front, room_id, upgrade);
        let u = t.sweep_rooms(now, front).0;
        let v = u.sweep_room(now, r).0;
        crate::v2::invariants::lemma_sweep_room(u, now, r);
        lemma_sweep_room_elsewhere(u, now, r, room_id);
        progress::law_single_room_leads_on(u, now, r);
        lemma_still_contains(u.actions, v.actions, refusal(upgrade));
        if r == room_id && u.rooms.contains_key(r) {
            lemma_direct_sweep(u, now, r);
            assert(v.is_member(room_id, upgrade.joining_client_id) ==> u.rooms[r].has(
                upgrade.joining_client_id,
            ));
        }
    }
}

} // verus!
