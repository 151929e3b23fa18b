//! Which actions speak of a room.

use super::{deadlines, upgrades};
use crate::ord_map;
use crate::seqs;
use crate::seqs::Text;
use crate::sfu;
use crate::time::Instant;
use crate::v2::model::{Room, Table};
use crate::v2::{invariants, model, ActionView, RoomMode};
use vstd::prelude::*;

verus! {

/// Whether an action tells browsers of a room something.
pub open spec fn speaks_of(action: ActionView, room_id: u64) -> bool {
    match action {
        ActionView::Sfu(_) => false,
        ActionView::AdmissionCompleted { .. } => false,
        ActionView::RemovalCompleted { room_id: r, .. } => r == room_id,
        ActionView::Upgraded { room_id: r, .. } => r == room_id,
        ActionView::Downgraded { room_id: r, .. } => r == room_id,
        ActionView::Deliver(delivery) => delivery.room_id == room_id,
        ActionView::Promoted(promotion) => promotion.room_id == room_id,
        ActionView::RoomFailed { room_id: r, .. } => r == room_id,
    }
}

/// The clients of an action that has several.
pub open spec fn addressees(action: ActionView) -> Seq<u64> {
    match action {
        ActionView::Upgraded { existing_clients, .. } => existing_clients,
        ActionView::Downgraded { clients, .. } => clients,
        ActionView::RoomFailed { clients, .. } => clients,
        _ => Seq::empty(),
    }
}

impl Table {
    /// The other table has further actions, which address nobody twice and do not speak
    /// of the room.
    pub open spec fn says_nothing_of(self, later: Table, room_id: u64) -> bool {
        &&& self.actions.is_prefix_of(later.actions)
        &&& forall|k: int|
            self.actions.len() <= k < later.actions.len() ==> addressees(
                #[trigger] later.actions[k],
            ).no_duplicates() && !speaks_of(later.actions[k], room_id)
    }

    /// The other table has further actions, which address nobody twice and of which only
    /// the one at `m` speaks of the room.
    pub open spec fn says_at(self, later: Table, room_id: u64, m: int) -> bool {
        &&& self.actions.is_prefix_of(later.actions)
        &&& self.actions.len() <= m < later.actions.len()
        &&& forall|k: int|
            self.actions.len() <= k < later.actions.len() ==> addressees(
                #[trigger] later.actions[k],
            ).no_duplicates() && (k != m ==> !speaks_of(later.actions[k], room_id))
    }

    /// Of the further actions of the other table exactly one speaks of the room: this
    /// one.
    pub open spec fn says_once(self, later: Table, room_id: u64, news: ActionView) -> bool {
        exists|m: int| #[trigger] self.says_at(later, room_id, m) && later.actions[m] == news
    }
}

pub proof fn lemma_silence(a: Table, b: Table, c: Table, room_id: u64)
    requires
        a.says_nothing_of(b, room_id),
        b.says_nothing_of(c, room_id),
    ensures
        a.says_nothing_of(c, room_id),
{
    assert forall|i: int| 0 <= i < a.actions.len() implies a.actions[i] == c.actions[i] by {
        assert(a.actions[i] == b.actions[i]);
    }
    assert forall|k: int| a.actions.len() <= k < c.actions.len() implies addressees(
        #[trigger] c.actions[k],
    ).no_duplicates() && !speaks_of(c.actions[k], room_id) by {
        if k < b.actions.len() {
            assert(b.actions[k] == c.actions[k]);
        }
    }
}

pub proof fn lemma_said_before(a: Table, b: Table, c: Table, room_id: u64, news: ActionView)
    requires
        a.says_once(b, room_id, news),
        b.says_nothing_of(c, room_id),
    ensures
        a.says_once(c, room_id, news),
{
    let m = choose|m: int| #[trigger] a.says_at(b, room_id, m) && b.actions[m] == news;
    assert forall|i: int| 0 <= i < a.actions.len() implies a.actions[i] == c.actions[i] by {
        assert(a.actions[i] == b.actions[i]);
    }
    assert(b.actions[m] == c.actions[m]);
    assert forall|k: int| a.actions.len() <= k < c.actions.len() implies addressees(
        #[trigger] c.actions[k],
    ).no_duplicates() && (k != m ==> !speaks_of(c.actions[k], room_id)) by {
        if k < b.actions.len() {
            assert(b.actions[k] == c.actions[k]);
        }
    }
    assert(a.says_at(c, room_id, m));
}

pub proof fn lemma_said_after(a: Table, b: Table, c: Table, room_id: u64, news: ActionView)
    requires
        a.says_nothing_of(b, room_id),
        b.says_once(c, room_id, news),
    ensures
        a.says_once(c, room_id, news),
{
    let m = choose|m: int| #[trigger] b.says_at(c, room_id, m) && c.actions[m] == news;
    assert forall|i: int| 0 <= i < a.actions.len() implies a.actions[i] == c.actions[i] by {
        assert(a.actions[i] == b.actions[i]);
    }
    assert forall|k: int| a.actions.len() <= k < c.actions.len() implies addressees(
        #[trigger] c.actions[k],
    ).no_duplicates() && (k != m ==> !speaks_of(c.actions[k], room_id)) by {
        if k < b.actions.len() {
            assert(b.actions[k] == c.actions[k]);
        }
    }
    assert(a.says_at(c, room_id, m));
}

pub proof fn lemma_sync_rooms(
    t: Table,
    instance_id: Text,
    connection_id: u64,
    rooms: Seq<u64>,
    other: u64,
)
    ensures
        t.says_nothing_of(t.sync_rooms(instance_id, connection_id, rooms), other),
    decreases rooms.len(),
{
    if rooms.len() > 0 {
        lemma_sync_rooms(t, instance_id, connection_id, rooms.drop_last(), other);
        lemma_silence(
            t,
            t.sync_rooms(instance_id, connection_id, rooms.drop_last()),
            t.sync_rooms(instance_id, connection_id, rooms),
            other,
        );
    }
}

proof fn lemma_leave_joined(
    t: Table,
    instance_id: Text,
    connection: Option<u64>,
    room_id: u64,
    joined: Seq<u64>,
    other: u64,
)
    ensures
        t.says_nothing_of(
            t.leave_joined(instance_id, connection, room_id, joined).0,
            other,
        ),
    decreases joined.len(),
{
    if joined.len() > 0 && connection is Some {
        lemma_leave_joined(t, instance_id, connection, room_id, joined.drop_last(), other);
        lemma_silence(
            t,
            t.leave_joined(instance_id, connection, room_id, joined.drop_last()).0,
            t.leave_joined(instance_id, connection, room_id, joined).0,
            other,
        );
    }
}

pub proof fn lemma_leave_all(
    t: Table,
    instance_id: Text,
    connection: Option<u64>,
    room_id: u64,
    assignment_epoch: u64,
    members: Seq<sfu::MemberProjection>,
    other: u64,
)
    ensures
        t.says_nothing_of(
            t.leave_all(instance_id, connection, room_id, assignment_epoch, members),
            other,
        ),
    decreases members.len(),
{
    if members.len() > 0 && connection is Some {
        let front = members.drop_last();
        lemma_leave_all(t, instance_id, connection, room_id, assignment_epoch, front, other);
        lemma_silence(
            t,
            t.leave_all(instance_id, connection, room_id, assignment_epoch, front),
            t.leave_all(instance_id, connection, room_id, assignment_epoch, members),
            other,
        );
    }
}

pub proof fn lemma_abort_upgrade(t: Table, room_id: u64, reason: Text, other: u64)
    ensures
        t.says_nothing_of(t.abort_upgrade(room_id, reason).0, other),
{
    if t.rooms.contains_key(room_id) && t.rooms[room_id].upgrade is Some
        && t.rooms[room_id].assigned_instance is Some {
        let room = t.rooms[room_id];
        let upgrade = room.upgrade->0;
        let instance_id = room.assigned_instance->0;
        let back = Room {
            mode: RoomMode::P2p,
            assigned_instance: None,
            upgrade: None,
            ..room.without_member(upgrade.joining_client_id)
        };
        let u = t.with_room(room_id, back).released(instance_id, room_id, 3);
        let connection = t.connection(instance_id);
        lemma_leave_joined(u, instance_id, connection, room_id, upgrade.joined_clients, other);
    }
}

/// The members of a room are listed once each.
pub proof fn lemma_clients(room: Room)
    requires
        room.members.dom().finite(),
    ensures
        room.clients().no_duplicates(),
        forall|c: u64| #[trigger] room.clients().contains(c) <==> room.members.contains_key(c),
        room.clients().len() == room.members.dom().len(),
{
    ord_map::lemma_in_order::<u64>(room.members.dom());
    ord_map::lemma_ascending_no_duplicates::<u64>(room.clients());
    assert forall|c: u64| #[trigger]
        room.clients().contains(c) <==> room.members.contains_key(c) by {
        assert(room.members.dom().contains(c) <==> room.clients().contains(c));
    }
    room.clients().unique_seq_to_set();
    assert(room.clients().to_set() =~= room.members.dom()) by {
        assert forall|c: u64| room.clients().to_set().contains(c) <==> room.members.dom().contains(
            c,
        ) by {
            assert(room.clients().contains(c) <==> room.members.contains_key(c));
        }
    }
}

/// The others of a room are its members but one, each once.
pub proof fn lemma_others(room: Room, client_id: u64)
    requires
        room.members.dom().finite(),
    ensures
        room.others(client_id).no_duplicates(),
        forall|c: u64| #[trigger]
            room.others(client_id).contains(c) <==> room.members.contains_key(c) && c != client_id,
{
    lemma_clients(room);
    seqs::lemma_filter_contains(room.clients(), model::other_than(client_id));
    seqs::lemma_filter_no_duplicates(room.clients(), model::other_than(client_id));
    assert forall|c: u64| #[trigger]
        room.others(client_id).contains(c) <==> room.members.contains_key(c) && c != client_id by {
        assert(room.clients().contains(c) <==> room.members.contains_key(c));
    }
}

proof fn lemma_commit_downgrade_says(t: Table, room_id: u64)
    requires
        t.rooms.contains_key(room_id),
        t.rooms[room_id].members.dom().finite(),
        t.rooms[room_id].members.dom().len() > 0,
    ensures
        t.says_once(
            t.commit_downgrade(room_id).0,
            room_id,
            ActionView::Downgraded {
                room_id,
                signal_epoch: model::increment(t.rooms[room_id].signal_epoch),
                initiator_client_id: t.rooms[room_id].clients()[0],
                clients: t.rooms[room_id].clients(),
            },
        ),
        forall|other: u64|
            other != room_id ==> #[trigger] t.says_nothing_of(
                t.commit_downgrade(room_id).0,
                other,
            ),
{
    let old = t.rooms[room_id];
    let room = Room {
        mode: RoomMode::P2p,
        signal_epoch: model::increment(old.signal_epoch),
        downgrade_deadline: None,
        assigned_instance: None,
        ..old
    };
    let u = t.with_room(room_id, room.with_initiator(Some(old.clients()[0])));
    let v = match old.assigned_instance {
        None => u,
        Some(instance_id) => u.released(instance_id, room_id, old.members.dom().len()).leave_all(
            instance_id,
            t.connection(instance_id),
            room_id,
            old.assignment_epoch,
            old.projections(),
        ),
    };
    let news = ActionView::Downgraded {
        room_id,
        signal_epoch: room.signal_epoch,
        initiator_client_id: old.clients()[0],
        clients: old.clients(),
    };
    lemma_clients(old);
    let w = t.commit_downgrade(room_id).0;
    assert(w.actions == v.actions.push(news));
    assert forall|other: u64| t.says_nothing_of(v, other) by {
        if old.assigned_instance is Some {
            let instance_id = old.assigned_instance->0;
            lemma_leave_all(
                u.released(instance_id, room_id, old.members.dom().len()),
                instance_id,
                t.connection(instance_id),
                room_id,
                old.assignment_epoch,
                old.projections(),
                other,
            );
        }
    }
    assert(t.says_nothing_of(v, room_id));
    assert(t.says_at(w, room_id, v.actions.len() as int));
    assert forall|other: u64| other != room_id implies #[trigger] t.says_nothing_of(w, other) by {
        assert(t.says_nothing_of(v, other));
    }
}

proof fn lemma_lose_room(t: Table, r: u64, room_id: u64)
    requires
        t.inv(),
        r != room_id,
    ensures
        t.says_nothing_of(t.lose_room(r), room_id),
{
    lemma_abort_upgrade(t, r, "WORKER_UNAVAILABLE"@, room_id);
    if t.rooms.contains_key(r) && t.rooms[r].mode != RoomMode::Upgrading {
        let room = t.rooms[r];
        let stayed = match room.pending_join {
            Some(join) => room.without_member(join.client_id),
            None => room,
        };
        assert(stayed.members.dom().subset_of(room.members.dom()));
        vstd::set_lib::lemma_len_subset(stayed.members.dom(), room.members.dom());
        lemma_clients(stayed);
    }
}

proof fn lemma_lose_rooms(t: Table, rooms: Seq<u64>, room_id: u64)
    requires
        t.inv(),
        !rooms.contains(room_id),
    ensures
        t.says_nothing_of(t.lose_rooms(rooms), room_id),
    decreases rooms.len(),
{
    if rooms.len() > 0 {
        let front = rooms.drop_last();
        assert(!front.contains(room_id)) by {
            if front.contains(room_id) {
                let k = choose|k: int| 0 <= k < front.len() && front[k] == room_id;
                assert(rooms[k] == room_id);
            }
        }
        assert(rooms[rooms.len() - 1] == rooms.last());
        lemma_lose_rooms(t, front, room_id);
        let u = t.lose_rooms(front);
        invariants::lemma_lose_rooms(t, front);
        lemma_lose_room(u, rooms.last(), room_id);
        lemma_silence(t, u, u.lose_room(rooms.last()), room_id);
    }
}

/// The loss of workers that do not have a room says nothing of it.
pub proof fn lemma_expire_workers(t: Table, instances: Seq<Text>, room_id: u64)
    requires
        t.inv(),
        forall|i: Text| #[trigger]
            instances.contains(i) && t.workers.contains_key(i)
                ==> !t.workers[i].assigned_rooms.contains(room_id),
    ensures
        t.says_nothing_of(t.expire_workers(instances), room_id),
    decreases instances.len(),
{
    if instances.len() > 0 {
        let front = instances.drop_last();
        assert forall|i: Text| #[trigger] front.contains(i) implies instances.contains(i) by {
            let k = choose|k: int| 0 <= k < front.len() && front[k] == i;
            assert(instances[k] == i);
        }
        lemma_expire_workers(t, front, room_id);
        let u = t.expire_workers(front);
        deadlines::lemma_expire_workers_elsewhere(t, front, room_id);
        invariants::lemma_expire_workers(t, front);
        let i = instances.last();
        assert(instances[instances.len() - 1] == i);
        let rooms = if u.workers.contains_key(i) {
            ord_map::in_order::<u64>(u.workers[i].assigned_rooms)
        } else {
            Seq::empty()
        };
        if u.workers.contains_key(i) {
            ord_map::lemma_in_order::<u64>(u.workers[i].assigned_rooms);
            assert(t.workers.dom().contains(i));
            assert(instances.contains(i));
            assert(t.workers.contains_key(i));
            assert(!u.workers[i].assigned_rooms.contains(room_id));
        }
        lemma_lose_rooms(u, rooms, room_id);
        assert(u.expire_worker(i).actions == u.lose_rooms(rooms).actions);
        lemma_silence(t, u, u.expire_worker(i), room_id);
    }
}

/// A sweep of another room says nothing of this one.
pub proof fn lemma_sweep_elsewhere(t: Table, now: Instant, r: u64, room_id: u64)
    requires
        t.inv(),
        r != room_id,
    ensures
        t.says_nothing_of(t.sweep_room(now, r).0, room_id),
{
    if t.rooms.contains_key(r) && t.rooms[r].downgrade_eligible() {
        lemma_commit_downgrade_says(t, r);
        assert(t.says_nothing_of(t.commit_downgrade(r).0, room_id));
    }
}

pub proof fn lemma_sweeps_elsewhere(t: Table, now: Instant, rooms: Seq<u64>, room_id: u64)
    requires
        t.inv(),
        !rooms.contains(room_id),
    ensures
        t.says_nothing_of(t.sweep_rooms(now, rooms).0, room_id),
    decreases rooms.len(),
{
    if rooms.len() > 0 {
        let front = rooms.drop_last();
        assert(!front.contains(room_id)) by {
            if front.contains(room_id) {
                let k = choose|k: int| 0 <= k < front.len() && front[k] == room_id;
                assert(rooms[k] == room_id);
            }
        }
        assert(rooms[rooms.len() - 1] == rooms.last());
        lemma_sweeps_elsewhere(t, now, front, room_id);
        let u = t.sweep_rooms(now, front).0;
        invariants::lemma_sweep_rooms(t, now, front);
        lemma_sweep_elsewhere(u, now, rooms.last(), room_id);
        lemma_silence(t, u, u.sweep_room(now, rooms.last()).0, room_id);
    }
}

proof fn lemma_sweeps_say(t: Table, now: Instant, rooms: Seq<u64>, room_id: u64)
    requires
        t.inv(),
        rooms.no_duplicates(),
        rooms.contains(room_id),
        t.rooms.contains_key(room_id),
        t.rooms[room_id].downgrade_eligible(),
        model::reached(t.rooms[room_id].downgrade_deadline, now),
    ensures
        t.says_once(
            t.sweep_rooms(now, rooms).0,
            room_id,
            ActionView::Downgraded {
                room_id,
                signal_epoch: model::increment(t.rooms[room_id].signal_epoch),
                initiator_client_id: t.rooms[room_id].clients()[0],
                clients: t.rooms[room_id].clients(),
            },
        ),
    decreases rooms.len(),
{
    let front = rooms.drop_last();
    let r = rooms.last();
    let u = t.sweep_rooms(now, front).0;
    let v = u.sweep_room(now, r).0;
    let news = ActionView::Downgraded {
        room_id,
        signal_epoch: model::increment(t.rooms[room_id].signal_epoch),
        initiator_client_id: t.rooms[room_id].clients()[0],
        clients: t.rooms[room_id].clients(),
    };
    assert(rooms[rooms.len() - 1] == r);
    deadlines::lemma_sweep_rooms_at(t, now, front, room_id);
    invariants::lemma_sweep_rooms(t, now, front);
    if r == room_id {
        assert(!front.contains(room_id)) by {
            if front.contains(room_id) {
                let k = choose|k: int| 0 <= k < front.len() && front[k] == room_id;
                assert(rooms[k] == room_id);
            }
        }
        lemma_sweeps_elsewhere(t, now, front, room_id);
        lemma_commit_downgrade_says(u, r);
        lemma_said_after(t, u, v, room_id, news);
    } else {
        let k = choose|k: int| 0 <= k < rooms.len() && rooms[k] == room_id;
        assert(front[k] == room_id);
        lemma_sweeps_say(t, now, front, room_id);
        lemma_sweep_elsewhere(u, now, r, room_id);
        lemma_said_before(t, u, v, room_id, news);
    }
}

/// Where the dwell of a room is over and no late worker has it, time says exactly one
/// thing of the room: its downgrade.
pub proof fn lemma_timeout_says_downgrade(t: Table, now: Instant, room_id: u64)
    requires
        t.inv(),
        t.spares(now, room_id),
        t.rooms.contains_key(room_id),
        t.rooms[room_id].downgrade_eligible(),
        model::reached(t.rooms[room_id].downgrade_deadline, now),
    ensures
        t.says_once(
            t.handle_timeout(now).0,
            room_id,
            ActionView::Downgraded {
                room_id,
                signal_epoch: model::increment(t.rooms[room_id].signal_epoch),
                initiator_client_id: t.rooms[room_id].clients()[0],
                clients: t.rooms[room_id].clients(),
            },
        ),
{
    let gone = t.expired_workers(now);
    ord_map::lemma_in_order::<String>(t.workers.dom());
    seqs::lemma_filter_contains(
        ord_map::in_order::<String>(t.workers.dom()),
        |i: Text| model::reached(t.workers[i].disconnect_deadline, now),
    );
    lemma_expire_workers(t, gone, room_id);
    deadlines::lemma_expire_workers_elsewhere(t, gone, room_id);
    invariants::lemma_expire_workers(t, gone);
    let u = t.expire_workers(gone);
    let rooms = ord_map::in_order::<u64>(u.rooms.dom());
    ord_map::lemma_in_order::<u64>(u.rooms.dom());
    ord_map::lemma_ascending_no_duplicates::<u64>(rooms);
    assert(u.rooms.dom().contains(room_id));
    lemma_sweeps_say(u, now, rooms, room_id);
    lemma_said_after(
        t,
        u,
        t.handle_timeout(now).0,
        room_id,
        ActionView::Downgraded {
            room_id,
            signal_epoch: model::increment(t.rooms[room_id].signal_epoch),
            initiator_client_id: t.rooms[room_id].clients()[0],
            clients: t.rooms[room_id].clients(),
        },
    );
}

/// The upgrade of a room, when it is complete, is the one thing that is said of it.
pub proof fn lemma_commit_says(t: Table, room_id: u64, input: sfu::InputView)
    requires
        t.inv(),
        t.rooms.contains_key(room_id),
        t.rooms[room_id].mode == RoomMode::Upgrading,
        t.handle_sfu_input(input).0.rooms.contains_key(room_id),
        t.handle_sfu_input(input).0.rooms[room_id].mode == RoomMode::Sfu,
    ensures
        ({
            let (u, result) = t.handle_sfu_input(input);
            let upgrade = t.rooms[room_id].upgrade->0;
            let joining = upgrade.joining_client_id;
            &&& result is Ok
            &&& input is CommandResult
            &&& u.rooms[room_id].signal_epoch == model::increment(t.rooms[room_id].signal_epoch)
            &&& u.rooms[room_id].members.dom() == t.rooms[room_id].members.dom()
            &&& u.rooms[room_id].members[joining].token
                == t.rooms[room_id].members[joining].token
            &&& u.serving(u.rooms[room_id]) is Some
            &&& u.actions == t.actions.push(
                ActionView::Upgraded {
                    room_id,
                    signal_epoch: model::increment(t.rooms[room_id].signal_epoch),
                    existing_clients: t.rooms[room_id].others(joining),
                },
            ).push(
                ActionView::AdmissionCompleted {
                    authority_request_id: upgrade.authority_request_id,
                    result: Ok(
                        crate::v2::AdmissionView {
                            mode: RoomMode::Sfu,
                            signal_epoch: model::increment(t.rooms[room_id].signal_epoch),
                            admission_token: t.rooms[room_id].members[joining].token,
                            is_initiator: None,
                        },
                    ),
                },
            )
        }),
{
    upgrades::law_only_the_last_join_commits(t, room_id, input);
    match input {
        sfu::InputView::CommandResult { connection_id, instance_id, result, now } => {
            let join = t.pending_commands[result.request_id]->UpgradeJoin_join;
            let room = t.rooms[room_id];
            let u = t.handle_sfu_input(input).0;
            if t.connection(instance_id) == Some(connection_id) {
                upgrades::law_last_join_commits(
                    t,
                    room_id,
                    connection_id,
                    instance_id,
                    result.request_id,
                    join,
                    now,
                );
                assert(u.rooms[room_id].has(join.client_id));
            }
        },
        _ => {},
    }
}

} // verus!
