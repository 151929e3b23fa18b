//! How long the number of an event is remembered.

use super::upgrades;
use crate::ord_map;
use crate::seqs::Text;
use crate::sfu;
use crate::time::Instant;
use crate::v2::model::{Pending, Table, Worker};
use crate::v2::{invariants, model, ActionView, EVENT_DEDUP_CAPACITY};
use vstd::prelude::*;

verus! {

impl Worker {
    /// Whether an event is among those that are remembered, and at most so many came
    /// after it.
    pub open spec fn remembers(self, request_id: u64, later: nat) -> bool {
        &&& self.memory_inv()
        &&& exists|j: int|
            0 <= j < self.seen_event_order.len() && #[trigger] self.seen_event_order[j]
                == request_id && self.seen_event_order.len() - 1 - j <= later
    }
}

impl Table {
    /// Whether an event of a worker is remembered, and at most so many of that worker
    /// came after it.
    pub open spec fn remembers(self, instance_id: Text, request_id: u64, later: nat) -> bool {
        self.workers.contains_key(instance_id) && self.workers[instance_id].remembers(
            request_id,
            later,
        )
    }

    /// In the other table the same events are remembered of a worker that this one
    /// knows.
    pub open spec fn keeps_memory(self, later: Table, instance_id: Text) -> bool {
        self.workers.contains_key(instance_id) ==> {
            &&& later.workers.contains_key(instance_id)
            &&& later.workers[instance_id].seen_events == self.workers[instance_id].seen_events
            &&& later.workers[instance_id].seen_event_order
                == self.workers[instance_id].seen_event_order
        }
    }
}

/// Whether an input is an event of a worker.
pub open spec fn is_event_of(input: sfu::InputView, instance_id: Text) -> bool {
    input matches sfu::InputView::Event { instance_id: i, .. } && i == instance_id
}

/// An event that is remembered is acknowledged when it comes again, and nothing else
/// happens.
pub proof fn law_remembered_event_is_only_acknowledged(
    t: Table,
    connection_id: u64,
    instance_id: Text,
    event: sfu::EventView,
    later: nat,
)
    requires
        t.remembers(instance_id, event.request_id, later),
        t.connection(instance_id) == Some(connection_id),
        event.request_id != 0,
    ensures
        t.handle_sfu_input(sfu::InputView::Event { connection_id, instance_id, event }) == (
            t.with_action(
                ActionView::Sfu(
                    sfu::OutputView::EventAck { connection_id, request_id: event.request_id },
                ),
            ),
            Ok::<(), Text>(()),
        ),
{
    let worker = t.workers[instance_id];
    assert(worker.seen_event_order.contains(event.request_id));
    assert(worker.seen_events.contains(event.request_id));
}

/// An event that was accepted is the latest that is remembered, unless it was remembered
/// before.
pub proof fn law_accepted_event_is_remembered(
    t: Table,
    connection_id: u64,
    instance_id: Text,
    event: sfu::EventView,
)
    requires
        t.inv(),
        t.connection(instance_id) == Some(connection_id),
        event.request_id != 0,
        !t.workers[instance_id].seen_events.contains(event.request_id),
    ensures
        t.handle_sfu_input(
            sfu::InputView::Event { connection_id, instance_id, event },
        ).0.remembers(instance_id, event.request_id, 0),
{
    let worker = t.workers[instance_id];
    invariants::lemma_after_event(worker, event.request_id);
    lemma_latest(worker, event.request_id);
}

proof fn lemma_latest(worker: Worker, request_id: u64)
    requires
        worker.seen_event_order.len() <= EVENT_DEDUP_CAPACITY,
    ensures
        ({
            let order = worker.after_event(request_id).seen_event_order;
            order.len() > 0 && order[order.len() - 1] == request_id
        }),
{
}

/// Whatever a worker sends, an event stays remembered. Only another event of the same
/// worker brings it nearer to being forgotten, by one, and it is forgotten at the
/// earliest when as many others have come as are remembered.
pub proof fn law_workers_keep_the_memory(
    t: Table,
    input: sfu::InputView,
    instance_id: Text,
    request_id: u64,
    later: nat,
)
    requires
        t.remembers(instance_id, request_id, later),
        is_event_of(input, instance_id) ==> later + 1 < EVENT_DEDUP_CAPACITY,
    ensures
        t.handle_sfu_input(input).0.remembers(
            instance_id,
            request_id,
            if is_event_of(input, instance_id) {
                later + 1
            } else {
                later
            },
        ),
{
    let u = t.handle_sfu_input(input).0;
    match input {
        sfu::InputView::Register { connection_id, instance_id: i, request_id: id, capacity } => {
            lemma_register_worker_keeps_memory(t, connection_id, i, id, capacity, instance_id);
            lemma_kept(t, u, instance_id, request_id, later);
        },
        sfu::InputView::CommandResult { connection_id, instance_id: i, result, now } => {
            let v = t.acknowledged(result.request_id);
            match t.pending_commands[result.request_id] {
                Pending::UpgradeJoin { instance_id: expected, join } => {
                    upgrades::lemma_abort_upgrade_rooms(
                        v,
                        join.room_id,
                        model::failure_reason(result.result),
                    );
                },
                _ => {},
            }
            lemma_kept(t, u, instance_id, request_id, later);
        },
        sfu::InputView::Event { connection_id, instance_id: i, event } => {
            if i == instance_id {
                let worker = t.workers[i];
                if worker.seen_events.contains(event.request_id) || worker.connection_id != Some(
                    connection_id,
                ) || event.request_id == 0 {
                    lemma_later(worker, request_id, later);
                } else {
                    lemma_one_more(worker, event.request_id, request_id, later);
                    let after = worker.after_event(event.request_id);
                    assert(u.workers[i].seen_event_order == after.seen_event_order);
                    assert(u.workers[i].seen_events == after.seen_events);
                    lemma_same_memory(after, u.workers[i], request_id, later + 1);
                }
            } else {
                lemma_kept(t, u, instance_id, request_id, later);
            }
        },
        sfu::InputView::Disconnected { .. } => {
            lemma_kept(t, u, instance_id, request_id, later);
        },
    }
}

proof fn lemma_same_memory(a: Worker, b: Worker, request_id: u64, later: nat)
    requires
        a.remembers(request_id, later),
        a.seen_events == b.seen_events,
        a.seen_event_order == b.seen_event_order,
    ensures
        b.remembers(request_id, later),
{
    let j = choose|j: int|
        0 <= j < a.seen_event_order.len() && #[trigger] a.seen_event_order[j] == request_id
            && a.seen_event_order.len() - 1 - j <= later;
    assert(b.seen_event_order[j] == request_id);
    assert forall|id: u64| #[trigger]
        b.seen_events.contains(id) <==> b.seen_event_order.contains(id) by {
        assert(a.seen_events.contains(id) <==> a.seen_event_order.contains(id));
    }
}

proof fn lemma_later(worker: Worker, request_id: u64, later: nat)
    requires
        worker.remembers(request_id, later),
    ensures
        worker.remembers(request_id, later + 1),
{
    let j = choose|j: int|
        0 <= j < worker.seen_event_order.len() && #[trigger] worker.seen_event_order[j]
            == request_id && worker.seen_event_order.len() - 1 - j <= later;
    assert(worker.seen_event_order[j] == request_id);
}

proof fn lemma_one_more(worker: Worker, new_id: u64, request_id: u64, later: nat)
    requires
        worker.remembers(request_id, later),
        !worker.seen_events.contains(new_id),
        later + 1 < EVENT_DEDUP_CAPACITY,
    ensures
        worker.after_event(new_id).remembers(request_id, later + 1),
{
    invariants::lemma_after_event(worker, new_id);
    let order = worker.seen_event_order;
    let after = worker.after_event(new_id).seen_event_order;
    let j = choose|j: int|
        0 <= j < order.len() && #[trigger] order[j] == request_id && order.len() - 1 - j <= later;
    if order.push(new_id).len() > EVENT_DEDUP_CAPACITY {
        assert(after[j - 1] == request_id);
    } else {
        assert(after[j] == request_id);
    }
}

/// What is kept is still remembered.
pub proof fn lemma_kept(t: Table, u: Table, instance_id: Text, request_id: u64, later: nat)
    requires
        t.remembers(instance_id, request_id, later),
        t.keeps_memory(u, instance_id),
    ensures
        u.remembers(instance_id, request_id, later),
{
    lemma_same_memory(t.workers[instance_id], u.workers[instance_id], request_id, later);
}

proof fn lemma_register_worker_keeps_memory(
    t: Table,
    connection_id: u64,
    i: Text,
    request_id: u64,
    capacity: sfu::Capacity,
    instance_id: Text,
)
    ensures
        t.keeps_memory(t.register_worker(connection_id, i, request_id, capacity), instance_id),
{
    let u = t.worker_connected(connection_id, i, request_id, capacity).without_syncs(i);
    upgrades::lemma_sync_rooms_keeps_rooms(
        u,
        i,
        connection_id,
        ord_map::in_order::<u64>(u.workers[i].assigned_rooms),
    );
}

/// What authorities and browsers do leaves every event remembered, and so does the
/// passing of time.
pub proof fn law_others_keep_the_memory(
    t: Table,
    instance_id: Text,
    request_id: u64,
    now: Instant,
    room_id: u64,
    client_id: u64,
    signal_epoch: u64,
    text: Text,
)
    ensures
        t.keeps_memory(t.admit_client(request_id, now, room_id, client_id, text).0, instance_id),
        t.keeps_memory(t.register(room_id, client_id, text).0, instance_id),
        t.keeps_memory(t.deregister(now, room_id, client_id), instance_id),
        t.keeps_memory(t.send(room_id, client_id, signal_epoch, text).0, instance_id),
        t.keeps_memory(t.remove(request_id, room_id, client_id, text).0, instance_id),
        t.keeps_memory(t.handle_timeout(now).0, instance_id),
{
    let gone = t.expired_workers(now);
    lemma_expire_workers_keep_memory(t, gone, instance_id);
    let u = t.expire_workers(gone);
    lemma_sweep_rooms_keep_memory(u, now, ord_map::in_order::<u64>(u.rooms.dom()), instance_id);
}

proof fn lemma_lose_rooms_keep_memory(t: Table, rooms: Seq<u64>, instance_id: Text)
    ensures
        t.keeps_memory(t.lose_rooms(rooms), instance_id),
    decreases rooms.len(),
{
    if rooms.len() > 0 {
        lemma_lose_rooms_keep_memory(t, rooms.drop_last(), instance_id);
        let u = t.lose_rooms(rooms.drop_last());
        upgrades::lemma_abort_upgrade_rooms(u, rooms.last(), "WORKER_UNAVAILABLE"@);
    }
}

proof fn lemma_expire_workers_keep_memory(t: Table, instances: Seq<Text>, instance_id: Text)
    ensures
        t.keeps_memory(t.expire_workers(instances), instance_id),
    decreases instances.len(),
{
    if instances.len() > 0 {
        lemma_expire_workers_keep_memory(t, instances.drop_last(), instance_id);
        let u = t.expire_workers(instances.drop_last());
        let i = instances.last();
        let rooms = if u.workers.contains_key(i) {
            ord_map::in_order::<u64>(u.workers[i].assigned_rooms)
        } else {
            Seq::empty()
        };
        lemma_lose_rooms_keep_memory(u, rooms, instance_id);
    }
}

proof fn lemma_sweep_rooms_keep_memory(
    t: Table,
    now: Instant,
    rooms: Seq<u64>,
    instance_id: Text,
)
    ensures
        t.keeps_memory(t.sweep_rooms(now, rooms).0, instance_id),
    decreases rooms.len(),
{
    if rooms.len() > 0 {
        lemma_sweep_rooms_keep_memory(t, now, rooms.drop_last(), instance_id);
        let u = t.sweep_rooms(now, rooms.drop_last()).0;
        let r = rooms.last();
        if u.rooms.contains_key(r) && u.rooms[r].downgrade_eligible() {
            upgrades::lemma_commit_downgrade_rooms(u, r);
        }
    }
}

} // verus!
